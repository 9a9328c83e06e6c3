//! The user's settings: what the settings and credentials documents hold, and
//! how they are read and written.

use crate::fold::TranscriptView;
use crate::session;
use crate::text;
use crate::yaml::{Yaml, YamlPairs, YamlView};
use crate::yaml;
use vstd::prelude::*;

verus! {

// ---------------------------------------------------------------------------
// settings
// ---------------------------------------------------------------------------

/// Light or dark.
#[derive(Clone, Copy, Debug, PartialEq, Eq, Structural)]
pub enum AppearanceMode {
    Light,
    Dark,
    /// As the desktop has it.
    System,
}

/// What the enter key does while a turn runs.
#[derive(Clone, Copy, Debug, PartialEq, Eq, Structural)]
pub enum EnterBehavior {
    /// The message waits for the end of the turn.
    Queue,
    /// The turn is cut short.
    Interrupt,
}

/// A model of a provider. The numbers are kept as they were typed.
#[derive(Clone, Debug)]
pub struct CustomModel {
    pub id: String,
    pub display_name: String,
    pub context_window: String,
    pub max_tokens: String,
}

/// The contents of a model.
pub struct ModelView {
    pub id: Seq<char>,
    pub display_name: Seq<char>,
    pub context_window: Seq<char>,
    pub max_tokens: Seq<char>,
}

impl DeepView for CustomModel {
    type V = ModelView;

    open spec fn deep_view(&self) -> ModelView {
        ModelView {
            id: self.id@,
            display_name: self.display_name@,
            context_window: self.context_window@,
            max_tokens: self.max_tokens@,
        }
    }
}

/// A provider that the user added.
#[derive(Clone, Debug)]
pub struct CustomProvider {
    pub id: String,
    pub name: String,
    pub base_url: String,
    pub api_key: String,
    pub protocol: String,
    pub models: Vec<CustomModel>,
}

/// The contents of a provider.
pub struct ProviderView {
    pub id: Seq<char>,
    pub name: Seq<char>,
    pub base_url: Seq<char>,
    pub api_key: Seq<char>,
    pub protocol: Seq<char>,
    pub models: Seq<ModelView>,
}

impl DeepView for CustomProvider {
    type V = ProviderView;

    open spec fn deep_view(&self) -> ProviderView {
        ProviderView {
            id: self.id@,
            name: self.name@,
            base_url: self.base_url@,
            api_key: self.api_key@,
            protocol: self.protocol@,
            models: self.models.deep_view(),
        }
    }
}

/// The user's settings.
#[derive(Clone, Debug)]
pub struct AppSettings {
    pub appearance: AppearanceMode,
    pub enter: EnterBehavior,
    pub transcript_view: TranscriptView,
    pub model: String,
    pub providers: Vec<CustomProvider>,
}

/// The contents of the settings.
pub struct SettingsView {
    pub appearance: AppearanceMode,
    pub enter: EnterBehavior,
    pub transcript_view: TranscriptView,
    pub model: Seq<char>,
    pub providers: Seq<ProviderView>,
}

impl DeepView for AppSettings {
    type V = SettingsView;

    open spec fn deep_view(&self) -> SettingsView {
        SettingsView {
            appearance: self.appearance,
            enter: self.enter,
            transcript_view: self.transcript_view,
            model: self.model@,
            providers: self.providers.deep_view(),
        }
    }
}

impl Default for AppSettings {
    fn default() -> (r: Self)
        ensures
            r.deep_view() == (SettingsView {
                appearance: AppearanceMode::System,
                enter: EnterBehavior::Queue,
                transcript_view: TranscriptView::Compact,
                model: "deepseek-flash"@,
                providers: Seq::empty(),
            }),
    {
        let providers: Vec<CustomProvider> = Vec::new();
        assert(providers.deep_view() =~= Seq::empty());
        AppSettings {
            appearance: AppearanceMode::System,
            enter: EnterBehavior::Queue,
            transcript_view: TranscriptView::Compact,
            model: "deepseek-flash".to_string(),
            providers,
        }
    }
}

// ---------------------------------------------------------------------------
// credentials
// ---------------------------------------------------------------------------

/// Keys by the names that they are kept under.
pub type KeysView = Seq<(Seq<char>, Seq<char>)>;

/// The keys among pairs: those whose name and value are texts.
pub open spec fn keys_from(pairs: YamlPairs) -> KeysView
    decreases pairs.len(),
{
    if pairs.len() == 0 {
        Seq::empty()
    } else {
        let head = keys_from(pairs.drop_last());
        match (yaml::text_of(pairs.last().0), yaml::text_of(pairs.last().1)) {
            (Some(name), Some(key)) => head.push((name, key)),
            _ => head,
        }
    }
}

/// The keys of a credentials document.
pub open spec fn keys_of(doc: Option<YamlView>) -> KeysView {
    keys_from(yaml::pairs_in(yaml::member_of(doc, "refs"@)))
}

/// The key under a name, the last where there are several; nothing where there
/// is none.
pub open spec fn key_at(keys: KeysView, name: Seq<char>) -> Seq<char>
    decreases keys.len(),
{
    if keys.len() == 0 {
        Seq::empty()
    } else if keys.last().0 == name {
        keys.last().1
    } else {
        key_at(keys.drop_last(), name)
    }
}

fn read_keys(pairs: &Vec<(Yaml, Yaml)>) -> (r: Vec<(String, String)>)
    ensures
        r.deep_view() == keys_from(yaml::pairs_view(pairs@)),
{
    let ghost view = yaml::pairs_view(pairs@);
    let mut out: Vec<(String, String)> = Vec::new();
    let mut i: usize = 0;
    assert(out.deep_view() =~= keys_from(view.take(0)));
    while i < pairs.len()
        invariant
            i <= pairs@.len(),
            view == yaml::pairs_view(pairs@),
            out.deep_view() == keys_from(view.take(i as int)),
        decreases pairs@.len() - i,
    {
        assert(view.take(i + 1).drop_last() =~= view.take(i as int));
        assert(view.take(i + 1).last() == (
            pairs@[i as int].0.deep_view(),
            pairs@[i as int].1.deep_view(),
        ));
        if let (Some(name), Some(key)) = (pairs[i].0.as_text(), pairs[i].1.as_text()) {
            let ghost before = out.deep_view();
            out.push((name.clone(), key.clone()));
            assert(out.deep_view() =~= before.push((name@, key@)));
        }
        i += 1;
    }
    assert(view.take(i as int) =~= view);
    out
}

/// The pairs of a mapping that may be missing, where they can be walked.
fn borrow_pairs<'a>(v: Option<&'a Yaml>) -> (r: Option<&'a Vec<(Yaml, Yaml)>>)
    ensures
        match r {
            Some(pairs) => yaml::pairs_view(pairs@) == yaml::pairs_in(v.deep_view()),
            None => yaml::pairs_in(v.deep_view()).len() == 0,
        },
{
    match v {
        Some(v) => match v.untag() {
            Yaml::Mapping(pairs) => {
                proof {
                    yaml::lemma_mapping_view(*pairs);
                }
                Some(pairs)
            },
            Yaml::Sequence(items) => {
                proof {
                    yaml::lemma_sequence_view(*items);
                }
                None
            },
            Yaml::Tagged(tag, items) => {
                proof {
                    yaml::lemma_tagged_view(*tag, *items);
                }
                None
            },
            _ => None,
        },
        None => None,
    }
}

fn borrow_items<'a>(v: Option<&'a Yaml>) -> (r: Option<&'a Vec<Yaml>>)
    ensures
        match r {
            Some(items) => yaml::items_view(items@) == yaml::items_in(v.deep_view()),
            None => yaml::items_in(v.deep_view()).len() == 0,
        },
{
    match v {
        Some(v) => match v.untag() {
            Yaml::Sequence(items) => {
                proof {
                    yaml::lemma_sequence_view(*items);
                }
                Some(items)
            },
            Yaml::Mapping(pairs) => {
                proof {
                    yaml::lemma_mapping_view(*pairs);
                }
                None
            },
            Yaml::Tagged(tag, items) => {
                proof {
                    yaml::lemma_tagged_view(*tag, *items);
                }
                None
            },
            _ => None,
        },
        None => None,
    }
}

/// The keys of a credentials document that was read.
pub fn keys_in(doc: &Option<Yaml>) -> (r: Vec<(String, String)>)
    ensures
        r.deep_view() == keys_of(doc.deep_view()),
{
    let refs = match doc {
        Some(d) => d.get("refs"),
        None => None,
    };
    match borrow_pairs(refs) {
        Some(pairs) => read_keys(pairs),
        None => {
            let none: Vec<(String, String)> = Vec::new();
            assert(none.deep_view() =~= Seq::empty());
            assert(yaml::pairs_in(refs.deep_view()) =~= Seq::empty());
            none
        },
    }
}

/// The key under a name, or nothing.
pub fn find_key(keys: &Vec<(String, String)>, name: &str) -> (r: String)
    ensures
        r@ == key_at(keys.deep_view(), name@),
{
    let ghost view = keys.deep_view();
    let mut n: usize = keys.len();
    assert(view.take(n as int) =~= view);
    while n > 0
        invariant
            n <= keys@.len(),
            view == keys.deep_view(),
            key_at(view, name@) == key_at(view.take(n as int), name@),
        decreases n,
    {
        assert(view.take(n as int).drop_last() =~= view.take(n - 1));
        assert(view.take(n as int).last() == (keys@[n - 1].0@, keys@[n - 1].1@));
        if text::same(keys[n - 1].0.as_str(), name) {
            return keys[n - 1].1.clone();
        }
        n -= 1;
    }
    String::new()
}

/// The keys with more of them, by name.
pub open spec fn with_keys(refs: YamlPairs, patch: KeysView) -> YamlPairs
    decreases patch.len(),
{
    if patch.len() == 0 {
        refs
    } else {
        yaml::with_pair(
            with_keys(refs, patch.drop_last()),
            patch.last().0,
            YamlView::Text(patch.last().1),
        )
    }
}

/// The pairs of a credentials document with more keys: its version is put in
/// where it is missing, and so is the list of keys. What is no list of keys is
/// left as it is.
pub open spec fn credential_pairs(pairs: YamlPairs, patch: KeysView) -> YamlPairs {
    let versioned = match yaml::pair_value(pairs, "version"@) {
        Some(_) => pairs,
        None => yaml::with_pair(pairs, "version"@, YamlView::Unsigned(1)),
    };
    match yaml::pair_value(versioned, "refs"@) {
        None => yaml::with_pair(
            versioned,
            "refs"@,
            YamlView::Mapping(with_keys(Seq::empty(), patch)),
        ),
        Some(YamlView::Mapping(refs)) => yaml::with_pair(
            versioned,
            "refs"@,
            YamlView::Mapping(with_keys(refs, patch)),
        ),
        Some(_) => versioned,
    }
}

/// A credentials document with more keys; one that is no mapping is left as it
/// is.
pub open spec fn with_credentials(doc: YamlView, patch: KeysView) -> YamlView {
    match doc {
        YamlView::Mapping(pairs) => YamlView::Mapping(credential_pairs(pairs, patch)),
        _ => doc,
    }
}

fn put_keys(refs: &mut Vec<(Yaml, Yaml)>, patch: &Vec<(String, String)>)
    ensures
        yaml::pairs_view(final(refs)@) == with_keys(
            yaml::pairs_view(old(refs)@),
            patch.deep_view(),
        ),
{
    let ghost view = patch.deep_view();
    let ghost start = yaml::pairs_view(refs@);
    let mut i: usize = 0;
    while i < patch.len()
        invariant
            i <= patch@.len(),
            view == patch.deep_view(),
            yaml::pairs_view(refs@) == with_keys(start, view.take(i as int)),
        decreases patch@.len() - i,
    {
        assert(view.take(i + 1).drop_last() =~= view.take(i as int));
        assert(view.take(i + 1).last() == (patch@[i as int].0@, patch@[i as int].1@));
        yaml::put(refs, patch[i].0.as_str(), Yaml::Text(patch[i].1.clone()));
        i += 1;
    }
    assert(view.take(i as int) =~= view);
}

/// A credentials document with more keys.
pub fn add_credentials(doc: Yaml, patch: &Vec<(String, String)>) -> (r: Yaml)
    ensures
        r.deep_view() == with_credentials(doc.deep_view(), patch.deep_view()),
{
    match doc {
        Yaml::Mapping(pairs) => {
            proof {
                yaml::lemma_mapping_view(pairs);
            }
            let mut pairs = pairs;
            if yaml::find_key(&pairs, "version").is_none() {
                yaml::put(&mut pairs, "version", Yaml::Unsigned(1));
            }
            match yaml::find_key(&pairs, "refs") {
                None => {
                    let mut refs: Vec<(Yaml, Yaml)> = Vec::new();
                    assert(yaml::pairs_view(refs@) =~= Seq::empty());
                    put_keys(&mut refs, patch);
                    proof {
                        yaml::lemma_mapping_view(refs);
                    }
                    yaml::put(&mut pairs, "refs", Yaml::Mapping(refs));
                },
                Some(i) => {
                    let ghost before = yaml::pairs_view(pairs@);
                    proof {
                        assert(before[i as int].1 == pairs@[i as int].1.deep_view());
                    }
                    let mut taken = Yaml::Unsigned(0);
                    std::mem::swap(&mut pairs[i].1, &mut taken);
                    match taken {
                        Yaml::Mapping(refs) => {
                            let mut refs = refs;
                            proof {
                                yaml::lemma_mapping_view(refs);
                            }
                            put_keys(&mut refs, patch);
                            proof {
                                yaml::lemma_mapping_view(refs);
                            }
                            pairs[i].1 = Yaml::Mapping(refs);
                            assert(yaml::pairs_view(pairs@) =~= before.update(
                                i as int,
                                (before[i as int].0, Yaml::Mapping(refs).deep_view()),
                            ));
                        },
                        other => {
                            proof {
                                lemma_not_mapping(other);
                            }
                            pairs[i].1 = other;
                            assert(yaml::pairs_view(pairs@) =~= before);
                        },
                    }
                },
            }
            proof {
                yaml::lemma_mapping_view(pairs);
            }
            Yaml::Mapping(pairs)
        },
        other => {
            proof {
                lemma_not_mapping(other);
            }
            other
        },
    }
}

proof fn lemma_not_mapping(v: Yaml)
    requires
        !(v is Mapping),
    ensures
        !(v.deep_view() is Mapping),
{
    match v {
        Yaml::Sequence(items) => {
            yaml::lemma_sequence_view(items);
        },
        Yaml::Tagged(tag, items) => {
            yaml::lemma_tagged_view(tag, items);
        },
        _ => {},
    }
}

/// What a document is read as, where it reads.
pub open spec fn read_yaml(raw: Option<Seq<char>>) -> Option<YamlView> {
    match raw {
        Some(s) => yaml::parsed_yaml(s),
        None => None,
    }
}

/// What a document is read as, or an empty one where it does not read.
pub open spec fn yaml_or_empty(raw: Option<Seq<char>>) -> YamlView {
    match read_yaml(raw) {
        Some(v) => v,
        None => YamlView::Mapping(Seq::empty()),
    }
}

fn parse_document(raw: &Option<String>) -> (r: Option<Yaml>)
    ensures
        r.deep_view() == read_yaml(raw.deep_view()),
{
    match raw {
        Some(s) => yaml::parse_yaml(s.as_str()),
        None => None,
    }
}

fn open_document(raw: &Option<String>) -> (r: Yaml)
    ensures
        r.deep_view() == yaml_or_empty(raw.deep_view()),
{
    match parse_document(raw) {
        Some(v) => v,
        None => {
            let none: Vec<(Yaml, Yaml)> = Vec::new();
            proof {
                yaml::lemma_mapping_view(none);
                assert(yaml::pairs_view(none@) =~= Seq::empty());
            }
            Yaml::Mapping(none)
        },
    }
}

/// The keys of the credentials document as it stands on disk.
pub fn load_credentials(raw: &Option<String>) -> (r: Vec<(String, String)>)
    ensures
        r.deep_view() == keys_of(read_yaml(raw.deep_view())),
{
    let doc = parse_document(raw);
    keys_in(&doc)
}

/// The credentials document to write so that it holds more keys.
pub fn save_credentials(raw: &Option<String>, patch: &Vec<(String, String)>) -> (r: Option<String>)
    ensures
        r.deep_view() == yaml::printed_yaml(
            with_credentials(yaml_or_empty(raw.deep_view()), patch.deep_view()),
        ),
        yaml::plain_yaml(yaml_or_empty(raw.deep_view()), 100) && plain_keys(patch.deep_view())
            ==> read_yaml(r.deep_view()) == Some(
            with_credentials(yaml_or_empty(raw.deep_view()), patch.deep_view()),
        ),
{
    proof {
        let before = yaml_or_empty(raw.deep_view());
        if yaml::plain_yaml(before, 100) && plain_keys(patch.deep_view()) {
            kept_keys_stay_plain(before, patch.deep_view());
        }
    }
    let doc = open_document(raw);
    let next = add_credentials(doc, patch);
    yaml::render_yaml(&next)
}

// ---------------------------------------------------------------------------
// the name of a key
// ---------------------------------------------------------------------------

/// Whether a character is an ASCII letter.
pub open spec fn is_letter(c: char) -> bool {
    'a' <= c <= 'z' || 'A' <= c <= 'Z'
}

/// The letters in upper case and the digits of a route, with one underscore
/// for each run of anything else.
pub open spec fn ref_chars(route: Seq<char>) -> Seq<char>
    decreases route.len(),
{
    if route.len() == 0 {
        Seq::empty()
    } else {
        let head = ref_chars(route.drop_last());
        let c = route.last();
        if is_letter(c) {
            head.push(text::upper_ascii(c))
        } else if text::is_digit(c) {
            head.push(c)
        } else if head.len() > 0 && head.last() == '_' {
            head
        } else {
            head.push('_')
        }
    }
}

/// The name that the key of a route is kept under.
pub open spec fn key_ref(route: Seq<char>) -> Seq<char> {
    text::stripped_end(ref_chars(route), seq!['_']) + "_API_KEY"@
}

/// The name that the key of a route is kept under.
pub fn derive_key_ref(route: &str) -> (r: String)
    ensures
        r@ == key_ref(route@),
{
    let v: Vec<char> = text::chars_of(route);
    let mut out: Vec<char> = Vec::new();
    let mut i: usize = 0;
    assert(out@ =~= ref_chars(v@.take(0)));
    while i < v.len()
        invariant
            i <= v@.len(),
            v@ == route@,
            out@ == ref_chars(v@.take(i as int)),
        decreases v@.len() - i,
    {
        assert(v@.take(i + 1).drop_last() =~= v@.take(i as int));
        let c = v[i];
        let n: usize = out.len();
        if ('a' <= c && c <= 'z') || ('A' <= c && c <= 'Z') {
            out.push(text::to_upper_ascii(c));
        } else if 48 <= c as u32 && c as u32 <= 57 {
            out.push(c);
        } else if n > 0 && out[n - 1] == '_' {
        } else {
            out.push('_');
        }
        i += 1;
    }
    assert(v@.take(i as int) =~= v@);
    let whole = text::text_of(out.as_slice());
    let mut set: Vec<char> = Vec::new();
    set.push('_');
    assert(set@ =~= seq!['_']);
    let head = text::strip_end(whole.as_str(), set.as_slice());
    text::concat2(head.as_str(), "_API_KEY")
}

// ---------------------------------------------------------------------------
// reading the settings
// ---------------------------------------------------------------------------

/// The text under two keys of a document.
pub open spec fn setting(doc: YamlView, section: Seq<char>, key: Seq<char>) -> Option<Seq<char>> {
    yaml::text_in(yaml::member_of(yaml::member(doc, section), key))
}

/// The appearance that a text names.
pub open spec fn appearance_of(s: Option<Seq<char>>) -> AppearanceMode {
    match s {
        Some(s) => if s == "light"@ {
            AppearanceMode::Light
        } else if s == "dark"@ {
            AppearanceMode::Dark
        } else {
            AppearanceMode::System
        },
        None => AppearanceMode::System,
    }
}

/// The view of the transcript that a text names.
pub open spec fn transcript_of(s: Option<Seq<char>>) -> TranscriptView {
    if s == Some("normal"@) {
        TranscriptView::Normal
    } else {
        TranscriptView::Compact
    }
}

/// The use of the enter key that a text names.
pub open spec fn enter_of(s: Option<Seq<char>>) -> EnterBehavior {
    if s == Some("steer"@) {
        EnterBehavior::Interrupt
    } else {
        EnterBehavior::Queue
    }
}

/// A text that may be missing, or another.
pub open spec fn or_else(s: Option<Seq<char>>, other: Seq<char>) -> Seq<char> {
    match s {
        Some(s) => s,
        None => other,
    }
}

/// The numeral of a number that may be missing.
pub open spec fn numeral(n: Option<u64>) -> Seq<char> {
    match n {
        Some(n) => text::dec(n as nat),
        None => Seq::empty(),
    }
}

/// The models among items: those with an id.
pub open spec fn models_from(items: Seq<YamlView>) -> Seq<ModelView>
    decreases items.len(),
{
    if items.len() == 0 {
        Seq::empty()
    } else {
        let head = models_from(items.drop_last());
        let m = items.last();
        match yaml::text_in(yaml::member(m, "id"@)) {
            Some(id) => head.push(
                ModelView {
                    id,
                    display_name: or_else(
                        yaml::text_in(yaml::member(m, "name"@)),
                        Seq::empty(),
                    ),
                    context_window: numeral(yaml::number_in(yaml::member(m, "contextWindow"@))),
                    max_tokens: numeral(yaml::number_in(yaml::member(m, "maxTokens"@))),
                },
            ),
            None => head,
        }
    }
}

/// A provider from its route and its definition.
pub open spec fn provider_from(route: Seq<char>, def: YamlView, keys: KeysView) -> ProviderView {
    ProviderView {
        id: route,
        name: or_else(yaml::text_in(yaml::member(def, "displayName"@)), route),
        base_url: or_else(yaml::text_in(yaml::member(def, "baseURL"@)), Seq::empty()),
        api_key: key_at(
            keys,
            or_else(yaml::text_in(yaml::member(def, "apiKeyEnv"@)), Seq::empty()),
        ),
        protocol: or_else(yaml::text_in(yaml::member(def, "api"@)), "openai-completions"@),
        models: models_from(yaml::items_in(yaml::member(def, "models"@))),
    }
}

/// The providers among pairs: those with a route that is a text.
pub open spec fn providers_from(pairs: YamlPairs, keys: KeysView) -> Seq<ProviderView>
    decreases pairs.len(),
{
    if pairs.len() == 0 {
        Seq::empty()
    } else {
        let head = providers_from(pairs.drop_last(), keys);
        let route = or_else(yaml::text_of(pairs.last().0), Seq::empty());
        if route.len() == 0 {
            head
        } else {
            head.push(provider_from(route, pairs.last().1, keys))
        }
    }
}

/// The first provider from `from` on with an id.
pub open spec fn provider_at(providers: Seq<ProviderView>, id: Seq<char>, from: int) -> Option<int>
    decreases providers.len() - from,
{
    if from < 0 || from >= providers.len() {
        None
    } else if providers[from].id == id {
        Some(from)
    } else {
        provider_at(providers, id, from + 1)
    }
}

/// The id of the first model, or nothing.
pub open spec fn first_model(models: Seq<ModelView>) -> Seq<char> {
    if models.len() > 0 {
        models[0].id
    } else {
        Seq::empty()
    }
}

/// The providers of a settings document.
pub open spec fn providers_of(doc: YamlView, keys: KeysView) -> Seq<ProviderView> {
    providers_from(
        yaml::pairs_in(yaml::member_of(yaml::member(doc, "llm-pi-ai"@), "providers"@)),
        keys,
    )
}

/// The provider that is used: the named one where it is known, else the
/// built-in one.
pub open spec fn active_of(doc: YamlView, providers: Seq<ProviderView>) -> Seq<char> {
    match setting(doc, "agent-default-model"@, "provider"@) {
        Some(p) => if p != "deepseek-official"@ && provider_at(providers, p, 0) is Some {
            p
        } else {
            "deepseek"@
        },
        None => "deepseek"@,
    }
}

/// The model that is used: the named one, else the first of the provider, else
/// the usual one.
pub open spec fn model_of(doc: YamlView, providers: Seq<ProviderView>) -> Seq<char> {
    match setting(doc, "agent-default-model"@, "model"@) {
        Some(m) => m,
        None => match setting(doc, "agent-default-model"@, "provider"@) {
            Some(p) => match provider_at(providers, p, 0) {
                Some(i) => if p != "deepseek-official"@ {
                    first_model(providers[i].models)
                } else {
                    "deepseek-flash"@
                },
                None => "deepseek-flash"@,
            },
            None => "deepseek-flash"@,
        },
    }
}

/// The settings of a document.
pub open spec fn settings_of(doc: YamlView, keys: KeysView) -> SettingsView {
    let providers = providers_of(doc, keys);
    SettingsView {
        appearance: appearance_of(setting(doc, "ui-theme"@, "preference"@)),
        enter: enter_of(setting(doc, "ui-conversation"@, "busyEnter"@)),
        transcript_view: transcript_of(setting(doc, "ui-chat"@, "transcriptView"@)),
        model: model_of(doc, providers),
        providers,
    }
}

fn read_setting(doc: &Yaml, section: &str, key: &str) -> (r: Option<String>)
    ensures
        r.deep_view() == setting(doc.deep_view(), section@, key@),
{
    yaml::read_text(yaml::get_in(doc.get(section), key))
}

fn text_or(v: Option<&Yaml>, other: &str) -> (r: String)
    ensures
        r@ == or_else(yaml::text_in(v.deep_view()), other@),
{
    match yaml::read_text(v) {
        Some(s) => s,
        None => other.to_string(),
    }
}

fn text_or_nothing(v: Option<&Yaml>) -> (r: String)
    ensures
        r@ == or_else(yaml::text_in(v.deep_view()), Seq::empty()),
{
    match yaml::read_text(v) {
        Some(s) => s,
        None => String::new(),
    }
}

fn numeral_text(n: Option<u64>) -> (r: String)
    ensures
        r@ == numeral(n),
{
    match n {
        Some(n) => text::decimal(n),
        None => String::new(),
    }
}

fn read_models(items: &Vec<Yaml>) -> (r: Vec<CustomModel>)
    ensures
        r.deep_view() == models_from(yaml::items_view(items@)),
{
    let ghost view = yaml::items_view(items@);
    let mut out: Vec<CustomModel> = Vec::new();
    let mut i: usize = 0;
    assert(out.deep_view() =~= models_from(view.take(0)));
    while i < items.len()
        invariant
            i <= items@.len(),
            view == yaml::items_view(items@),
            out.deep_view() == models_from(view.take(i as int)),
        decreases items@.len() - i,
    {
        assert(view.take(i + 1).drop_last() =~= view.take(i as int));
        assert(view.take(i + 1).last() == items@[i as int].deep_view());
        let m: &Yaml = &items[i];
        if let Some(id) = yaml::read_text(m.get("id")) {
            let ghost before = out.deep_view();
            let model = CustomModel {
                id,
                display_name: text_or_nothing(m.get("name")),
                context_window: numeral_text(yaml::read_number(m.get("contextWindow"))),
                max_tokens: numeral_text(yaml::read_number(m.get("maxTokens"))),
            };
            out.push(model);
            assert(out.deep_view() =~= before.push(model.deep_view()));
        }
        i += 1;
    }
    assert(view.take(i as int) =~= view);
    out
}

fn read_provider(route: String, def: &Yaml, keys: &Vec<(String, String)>) -> (r: CustomProvider)
    ensures
        r.deep_view() == provider_from(route@, def.deep_view(), keys.deep_view()),
{
    let key_env = text_or_nothing(def.get("apiKeyEnv"));
    let models = match borrow_items(def.get("models")) {
        Some(items) => read_models(items),
        None => {
            let none: Vec<CustomModel> = Vec::new();
            assert(none.deep_view() =~= models_from(
                yaml::items_in(yaml::member(def.deep_view(), "models"@)),
            ));
            none
        },
    };
    CustomProvider {
        name: text_or(def.get("displayName"), route.as_str()),
        id: route,
        base_url: text_or_nothing(def.get("baseURL")),
        api_key: find_key(keys, key_env.as_str()),
        protocol: text_or(def.get("api"), "openai-completions"),
        models,
    }
}

fn read_providers(pairs: &Vec<(Yaml, Yaml)>, keys: &Vec<(String, String)>) -> (r: Vec<CustomProvider>)
    ensures
        r.deep_view() == providers_from(yaml::pairs_view(pairs@), keys.deep_view()),
{
    let ghost view = yaml::pairs_view(pairs@);
    let ghost kept = keys.deep_view();
    let mut out: Vec<CustomProvider> = Vec::new();
    let mut i: usize = 0;
    assert(out.deep_view() =~= providers_from(view.take(0), kept));
    while i < pairs.len()
        invariant
            i <= pairs@.len(),
            view == yaml::pairs_view(pairs@),
            kept == keys.deep_view(),
            out.deep_view() == providers_from(view.take(i as int), kept),
        decreases pairs@.len() - i,
    {
        assert(view.take(i + 1).drop_last() =~= view.take(i as int));
        assert(view.take(i + 1).last() == (
            pairs@[i as int].0.deep_view(),
            pairs@[i as int].1.deep_view(),
        ));
        let route = text_or_nothing(Some(&pairs[i].0));
        if text::char_count(route.as_str()) > 0 {
            let ghost before = out.deep_view();
            let p = read_provider(route, &pairs[i].1, keys);
            out.push(p);
            assert(out.deep_view() =~= before.push(p.deep_view()));
        }
        i += 1;
    }
    assert(view.take(i as int) =~= view);
    out
}

/// The place of a provider.
pub fn find_provider(providers: &Vec<CustomProvider>, id: &str) -> (r: Option<usize>)
    ensures
        r matches Some(i) ==> i < providers@.len(),
        provider_at(providers.deep_view(), id@, 0) == (match r {
            Some(i) => Some(i as int),
            None => None,
        }),
{
    let ghost view = providers.deep_view();
    let mut i: usize = 0;
    while i < providers.len()
        invariant
            i <= providers@.len(),
            view == providers.deep_view(),
            view.len() == providers@.len(),
            provider_at(view, id@, 0) == provider_at(view, id@, i as int),
        decreases providers@.len() - i,
    {
        assert(view[i as int] == providers@[i as int].deep_view());
        if text::same(providers[i].id.as_str(), id) {
            return Some(i);
        }
        i += 1;
    }
    None
}

/// The id of the first model, or nothing.
pub fn first_model_id(models: &Vec<CustomModel>) -> (r: String)
    ensures
        r@ == first_model(models.deep_view()),
{
    if models.len() > 0 {
        assert(models.deep_view()[0] == models@[0].deep_view());
        models[0].id.clone()
    } else {
        String::new()
    }
}

/// What the settings give at the start.
pub struct UserConfig {
    pub settings: AppSettings,
    /// The provider that is used.
    pub active: String,
    /// The key of the built-in provider.
    pub deepseek_key: String,
}

/// The settings of documents that were read.
pub fn config_from(doc: &Yaml, keys: &Vec<(String, String)>) -> (r: UserConfig)
    ensures
        r.settings.deep_view() == settings_of(doc.deep_view(), keys.deep_view()),
        r.active@ == active_of(
            doc.deep_view(),
            providers_of(doc.deep_view(), keys.deep_view()),
        ),
        r.deepseek_key@ == key_at(keys.deep_view(), "DEEPSEEK_API_KEY"@),
{
    let ghost view = doc.deep_view();
    let mut settings: AppSettings = AppSettings::default();
    if let Some(v) = read_setting(doc, "ui-theme", "preference") {
        settings.appearance = if text::same(v.as_str(), "light") {
            AppearanceMode::Light
        } else if text::same(v.as_str(), "dark") {
            AppearanceMode::Dark
        } else {
            AppearanceMode::System
        };
    }
    if let Some(v) = read_setting(doc, "ui-chat", "transcriptView") {
        settings.transcript_view = if text::same(v.as_str(), "normal") {
            TranscriptView::Normal
        } else {
            TranscriptView::Compact
        };
    }
    if let Some(v) = read_setting(doc, "ui-conversation", "busyEnter") {
        settings.enter = if text::same(v.as_str(), "steer") {
            EnterBehavior::Interrupt
        } else {
            EnterBehavior::Queue
        };
    }
    let section = yaml::get_in(doc.get("llm-pi-ai"), "providers");
    if let Some(pairs) = borrow_pairs(section) {
        settings.providers = read_providers(pairs, keys);
    } else {
        assert(settings.providers.deep_view() =~= providers_of(view, keys.deep_view()));
    }
    let ghost providers = settings.providers.deep_view();
    let mut active: String = "deepseek".to_string();
    if let Some(p) = read_setting(doc, "agent-default-model", "provider") {
        if !text::same(p.as_str(), "deepseek-official") {
            if let Some(i) = find_provider(&settings.providers, p.as_str()) {
                assert(providers[i as int] == settings.providers@[i as int].deep_view());
                settings.model = first_model_id(&settings.providers[i].models);
                active = p;
            }
        }
    }
    if let Some(m) = read_setting(doc, "agent-default-model", "model") {
        settings.model = m;
    }
    let deepseek_key = find_key(keys, "DEEPSEEK_API_KEY");
    UserConfig { settings, active, deepseek_key }
}

/// The settings of the documents as they stand on disk.
pub fn load_user_config(settings: &Option<String>, credentials: &Option<String>) -> (r: UserConfig)
    ensures
        ({
            let doc = yaml_or_empty(settings.deep_view());
            let keys = keys_of(read_yaml(credentials.deep_view()));
            &&& r.settings.deep_view() == settings_of(doc, keys)
            &&& r.active@ == active_of(doc, providers_of(doc, keys))
            &&& r.deepseek_key@ == key_at(keys, "DEEPSEEK_API_KEY"@)
        }),
{
    let doc = open_document(settings);
    let keys = load_credentials(credentials);
    config_from(&doc, &keys)
}

// ---------------------------------------------------------------------------
// writing the settings
// ---------------------------------------------------------------------------

/// A pair that is put in where it is wanted.
pub open spec fn pair_if(pairs: YamlPairs, wanted: bool, key: Seq<char>, v: YamlView) -> YamlPairs {
    if wanted {
        yaml::with_pair(pairs, key, v)
    } else {
        pairs
    }
}

/// A number under a key, where the text spells one.
pub open spec fn number_if(pairs: YamlPairs, s: Seq<char>, key: Seq<char>) -> YamlPairs {
    match text::as_u64(s) {
        Some(n) => yaml::with_pair(pairs, key, YamlView::Unsigned(n)),
        None => pairs,
    }
}

/// The row of a model.
pub open spec fn model_row(m: ModelView) -> YamlView {
    let named = yaml::with_pair(
        yaml::with_pair(Seq::empty(), "id"@, YamlView::Text(m.id)),
        "name"@,
        YamlView::Text(
            if m.display_name.len() > 0 {
                m.display_name
            } else {
                m.id
            },
        ),
    );
    YamlView::Mapping(
        number_if(number_if(named, m.context_window, "contextWindow"@), m.max_tokens, "maxTokens"@),
    )
}

/// The definition of a provider.
pub open spec fn provider_def(p: ProviderView) -> YamlView {
    let a = pair_if(
        Seq::empty(),
        p.api_key.len() > 0,
        "apiKeyEnv"@,
        YamlView::Text(key_ref(p.id)),
    );
    let b = pair_if(a, p.name.len() > 0 && p.name != p.id, "displayName"@, YamlView::Text(p.name));
    let c = pair_if(b, p.base_url.len() > 0, "baseURL"@, YamlView::Text(p.base_url));
    let d = yaml::with_pair(c, "api"@, YamlView::Text("openai-completions"@));
    YamlView::Mapping(
        yaml::with_pair(
            d,
            "models"@,
            YamlView::Sequence(p.models.map_values(|m: ModelView| model_row(m))),
        ),
    )
}

/// The definitions of providers, by id.
pub open spec fn provider_defs(providers: Seq<ProviderView>) -> YamlPairs
    decreases providers.len(),
{
    if providers.len() == 0 {
        Seq::empty()
    } else {
        yaml::with_pair(
            provider_defs(providers.drop_last()),
            providers.last().id,
            provider_def(providers.last()),
        )
    }
}

/// A section with one setting.
pub open spec fn one_setting(key: Seq<char>, v: YamlView) -> YamlView {
    YamlView::Mapping(yaml::with_pair(Seq::empty(), key, v))
}

/// The section that names the provider and the model.
pub open spec fn route_section(active: Seq<char>, model: Seq<char>) -> YamlView {
    YamlView::Mapping(
        yaml::with_pair(
            yaml::with_pair(
                Seq::empty(),
                "provider"@,
                YamlView::Text(
                    if active == "deepseek"@ {
                        "deepseek-official"@
                    } else {
                        active
                    },
                ),
            ),
            "model"@,
            YamlView::Text(model),
        ),
    )
}

/// The name of a use of the enter key.
pub open spec fn enter_name(e: EnterBehavior) -> Seq<char> {
    match e {
        EnterBehavior::Interrupt => "steer"@,
        EnterBehavior::Queue => "queue"@,
    }
}

/// The name of a view of the transcript.
pub open spec fn transcript_name(v: TranscriptView) -> Seq<char> {
    match v {
        TranscriptView::Normal => "normal"@,
        TranscriptView::Compact => "compact"@,
    }
}

/// The name of an appearance.
pub open spec fn appearance_name(a: AppearanceMode) -> Seq<char> {
    match a {
        AppearanceMode::Light => "light"@,
        AppearanceMode::Dark => "dark"@,
        AppearanceMode::System => "system"@,
    }
}

/// A settings document with the given settings; its other sections are kept.
pub open spec fn with_settings(
    doc: YamlView,
    s: SettingsView,
    active: Seq<char>,
    model: Seq<char>,
) -> YamlPairs {
    let a = yaml::with_pair(
        yaml::pairs_in(Some(doc)),
        "llm-pi-ai"@,
        one_setting("providers"@, YamlView::Mapping(provider_defs(s.providers))),
    );
    let b = yaml::with_pair(a, "agent-default-model"@, route_section(active, model));
    let c = yaml::with_pair(
        b,
        "ui-conversation"@,
        one_setting("busyEnter"@, YamlView::Text(enter_name(s.enter))),
    );
    let d = yaml::with_pair(
        c,
        "ui-chat"@,
        one_setting("transcriptView"@, YamlView::Text(transcript_name(s.transcript_view))),
    );
    yaml::with_pair(
        d,
        "ui-theme"@,
        one_setting("preference"@, YamlView::Text(appearance_name(s.appearance))),
    )
}

/// The keys of providers that have one.
pub open spec fn provider_keys(providers: Seq<ProviderView>) -> KeysView
    decreases providers.len(),
{
    if providers.len() == 0 {
        Seq::empty()
    } else {
        let head = provider_keys(providers.drop_last());
        let p = providers.last();
        if p.api_key.len() > 0 {
            head.push((key_ref(p.id), p.api_key))
        } else {
            head
        }
    }
}

/// The keys to write: that of the built-in provider, unless it comes from the
/// environment, and those of the others.
pub open spec fn key_patch(s: SettingsView, deepseek_key: Seq<char>, locked: bool) -> KeysView {
    (if deepseek_key.len() > 0 && !locked {
        seq![("DEEPSEEK_API_KEY"@, deepseek_key)]
    } else {
        Seq::empty()
    }) + provider_keys(s.providers)
}

fn empty_pairs() -> (r: Vec<(Yaml, Yaml)>)
    ensures
        yaml::pairs_view(r@) == Seq::<(YamlView, YamlView)>::empty(),
{
    let r: Vec<(Yaml, Yaml)> = Vec::new();
    assert(yaml::pairs_view(r@) =~= Seq::empty());
    r
}

fn mapping(pairs: Vec<(Yaml, Yaml)>) -> (r: Yaml)
    ensures
        r.deep_view() == YamlView::Mapping(yaml::pairs_view(pairs@)),
{
    proof {
        yaml::lemma_mapping_view(pairs);
    }
    Yaml::Mapping(pairs)
}

fn make_model_row(m: &CustomModel) -> (r: Yaml)
    ensures
        r.deep_view() == model_row(m.deep_view()),
{
    let mut row = empty_pairs();
    yaml::put(&mut row, "id", Yaml::Text(m.id.clone()));
    if text::char_count(m.display_name.as_str()) > 0 {
        yaml::put(&mut row, "name", Yaml::Text(m.display_name.clone()));
    } else {
        yaml::put(&mut row, "name", Yaml::Text(m.id.clone()));
    }
    if let Some(n) = text::parse_u64(m.context_window.as_str()) {
        yaml::put(&mut row, "contextWindow", Yaml::Unsigned(n));
    }
    if let Some(n) = text::parse_u64(m.max_tokens.as_str()) {
        yaml::put(&mut row, "maxTokens", Yaml::Unsigned(n));
    }
    mapping(row)
}

fn make_models(models: &Vec<CustomModel>) -> (r: Yaml)
    ensures
        r.deep_view() == YamlView::Sequence(
            models.deep_view().map_values(|m: ModelView| model_row(m)),
        ),
{
    let ghost all = models.deep_view().map_values(|m: ModelView| model_row(m));
    let mut out: Vec<Yaml> = Vec::new();
    let mut i: usize = 0;
    assert(yaml::items_view(out@) =~= all.take(0));
    while i < models.len()
        invariant
            i <= models@.len(),
            all == models.deep_view().map_values(|m: ModelView| model_row(m)),
            yaml::items_view(out@) == all.take(i as int),
        decreases models@.len() - i,
    {
        let ghost before = yaml::items_view(out@);
        let row = make_model_row(&models[i]);
        out.push(row);
        assert(yaml::items_view(out@) =~= before.push(row.deep_view()));
        assert(models.deep_view()[i as int] == models@[i as int].deep_view());
        assert(all.take(i + 1) =~= all.take(i as int).push(all[i as int]));
        i += 1;
    }
    proof {
        yaml::lemma_sequence_view(out);
        assert(all.take(i as int) =~= all);
    }
    Yaml::Sequence(out)
}

fn make_provider_def(p: &CustomProvider) -> (r: Yaml)
    ensures
        r.deep_view() == provider_def(p.deep_view()),
{
    let mut def = empty_pairs();
    if text::char_count(p.api_key.as_str()) > 0 {
        yaml::put(&mut def, "apiKeyEnv", Yaml::Text(derive_key_ref(p.id.as_str())));
    }
    if text::char_count(p.name.as_str()) > 0 && !text::same(p.name.as_str(), p.id.as_str()) {
        yaml::put(&mut def, "displayName", Yaml::Text(p.name.clone()));
    }
    if text::char_count(p.base_url.as_str()) > 0 {
        yaml::put(&mut def, "baseURL", Yaml::Text(p.base_url.clone()));
    }
    yaml::put(&mut def, "api", Yaml::Text("openai-completions".to_string()));
    yaml::put(&mut def, "models", make_models(&p.models));
    mapping(def)
}

fn make_provider_defs(providers: &Vec<CustomProvider>) -> (r: Vec<(Yaml, Yaml)>)
    ensures
        yaml::pairs_view(r@) == provider_defs(providers.deep_view()),
{
    let ghost view = providers.deep_view();
    let mut defs = empty_pairs();
    let mut i: usize = 0;
    assert(yaml::pairs_view(defs@) =~= provider_defs(view.take(0)));
    while i < providers.len()
        invariant
            i <= providers@.len(),
            view == providers.deep_view(),
            yaml::pairs_view(defs@) == provider_defs(view.take(i as int)),
        decreases providers@.len() - i,
    {
        assert(view.take(i + 1).drop_last() =~= view.take(i as int));
        assert(view.take(i + 1).last() == providers@[i as int].deep_view());
        let def = make_provider_def(&providers[i]);
        yaml::put(&mut defs, providers[i].id.as_str(), def);
        i += 1;
    }
    assert(view.take(i as int) =~= view);
    defs
}

fn make_setting(key: &str, v: Yaml) -> (r: Yaml)
    ensures
        r.deep_view() == one_setting(key@, v.deep_view()),
{
    let mut section = empty_pairs();
    yaml::put(&mut section, key, v);
    mapping(section)
}

/// A settings document with the given settings.
pub fn put_settings(doc: Yaml, s: &AppSettings, active: &str, model: &str) -> (r: Yaml)
    ensures
        r.deep_view() == YamlView::Mapping(
            with_settings(doc.deep_view(), s.deep_view(), active@, model@),
        ),
{
    let mut pairs = doc.into_pairs();
    let defs = make_provider_defs(&s.providers);
    let defs = mapping(defs);
    let section = make_setting("providers", defs);
    yaml::put(&mut pairs, "llm-pi-ai", section);
    let mut route = empty_pairs();
    if text::same(active, "deepseek") {
        yaml::put(&mut route, "provider", Yaml::Text("deepseek-official".to_string()));
    } else {
        yaml::put(&mut route, "provider", Yaml::Text(active.to_string()));
    }
    yaml::put(&mut route, "model", Yaml::Text(model.to_string()));
    let route = mapping(route);
    yaml::put(&mut pairs, "agent-default-model", route);
    let enter = match s.enter {
        EnterBehavior::Interrupt => "steer",
        EnterBehavior::Queue => "queue",
    };
    let section = make_setting("busyEnter", Yaml::Text(enter.to_string()));
    yaml::put(&mut pairs, "ui-conversation", section);
    let view = match s.transcript_view {
        TranscriptView::Normal => "normal",
        TranscriptView::Compact => "compact",
    };
    let section = make_setting("transcriptView", Yaml::Text(view.to_string()));
    yaml::put(&mut pairs, "ui-chat", section);
    let theme = match s.appearance {
        AppearanceMode::Light => "light",
        AppearanceMode::Dark => "dark",
        AppearanceMode::System => "system",
    };
    let section = make_setting("preference", Yaml::Text(theme.to_string()));
    yaml::put(&mut pairs, "ui-theme", section);
    mapping(pairs)
}

/// The keys to write.
pub fn credentials_patch(s: &AppSettings, deepseek_key: &str, locked: bool) -> (r: Vec<
    (String, String),
>)
    ensures
        r.deep_view() == key_patch(s.deep_view(), deepseek_key@, locked),
{
    let mut out: Vec<(String, String)> = Vec::new();
    assert(out.deep_view() =~= Seq::empty());
    if text::char_count(deepseek_key) > 0 && !locked {
        out.push(("DEEPSEEK_API_KEY".to_string(), deepseek_key.to_string()));
        assert(out.deep_view() =~= seq![("DEEPSEEK_API_KEY"@, deepseek_key@)]);
    }
    let ghost first = out.deep_view();
    let ghost view = s.providers.deep_view();
    let mut i: usize = 0;
    assert(first + provider_keys(view.take(0)) =~= first);
    while i < s.providers.len()
        invariant
            i <= s.providers@.len(),
            view == s.providers.deep_view(),
            out.deep_view() == first + provider_keys(view.take(i as int)),
        decreases s.providers@.len() - i,
    {
        assert(view.take(i + 1).drop_last() =~= view.take(i as int));
        assert(view.take(i + 1).last() == s.providers@[i as int].deep_view());
        let p: &CustomProvider = &s.providers[i];
        if text::char_count(p.api_key.as_str()) > 0 {
            let ghost before = out.deep_view();
            let name = derive_key_ref(p.id.as_str());
            out.push((name, p.api_key.clone()));
            assert(out.deep_view() =~= before.push((name@, p.api_key@)));
            assert(out.deep_view() =~= first + provider_keys(view.take(i + 1)));
        }
        i += 1;
    }
    assert(view.take(i as int) =~= view);
    out
}

/// What is written to keep the settings.
pub struct Written {
    /// The settings document.
    pub settings: Option<String>,
    /// The credentials document, where keys are to be written.
    pub credentials: Option<String>,
}

/// What is written to keep the settings: both documents as they stand on disk,
/// with what is ours put in. The credentials are left alone where there is no
/// key to write.
pub fn persist_user_config(
    raw_settings: &Option<String>,
    raw_credentials: &Option<String>,
    s: &AppSettings,
    active: &str,
    model: &str,
    deepseek_key: &str,
    locked: bool,
) -> (r: Written)
    ensures
        r.settings.deep_view() == yaml::printed_yaml(
            YamlView::Mapping(
                with_settings(
                    yaml_or_empty(raw_settings.deep_view()),
                    s.deep_view(),
                    active@,
                    model@,
                ),
            ),
        ),
        r.credentials.deep_view() == ({
            let patch = key_patch(s.deep_view(), deepseek_key@, locked);
            if patch.len() > 0 {
                yaml::printed_yaml(
                    with_credentials(yaml_or_empty(raw_credentials.deep_view()), patch),
                )
            } else {
                None
            }
        }),
        yaml::plain_yaml(yaml_or_empty(raw_settings.deep_view()), 100) && plain_settings(
            s.deep_view(),
            active@,
            model@,
        ) ==> read_yaml(r.settings.deep_view()) == Some(
            YamlView::Mapping(
                with_settings(
                    yaml_or_empty(raw_settings.deep_view()),
                    s.deep_view(),
                    active@,
                    model@,
                ),
            ),
        ),
        ({
            let patch = key_patch(s.deep_view(), deepseek_key@, locked);
            let before = yaml_or_empty(raw_credentials.deep_view());
            patch.len() > 0 && yaml::plain_yaml(before, 100) && plain_keys(patch) ==> read_yaml(
                r.credentials.deep_view(),
            ) == Some(with_credentials(before, patch))
        }),
{
    proof {
        let before = yaml_or_empty(raw_settings.deep_view());
        if yaml::plain_yaml(before, 100) && plain_settings(s.deep_view(), active@, model@) {
            kept_settings_stay_plain(before, s.deep_view(), active@, model@);
        }
    }
    let doc = open_document(raw_settings);
    let next = put_settings(doc, s, active, model);
    let settings = yaml::render_yaml(&next);
    let patch = credentials_patch(s, deepseek_key, locked);
    assert(patch.deep_view().len() == patch@.len());
    let credentials = if patch.len() > 0 {
        save_credentials(raw_credentials, &patch)
    } else {
        None
    };
    Written { settings, credentials }
}

// ---------------------------------------------------------------------------
// laws
// ---------------------------------------------------------------------------

proof fn lemma_sections()
    ensures
        "llm-pi-ai"@.len() == 9,
        "agent-default-model"@.len() == 19,
        "ui-conversation"@.len() == 15,
        "ui-chat"@.len() == 7,
        "ui-theme"@.len() == 8,
{
    reveal_strlit("llm-pi-ai");
    reveal_strlit("agent-default-model");
    reveal_strlit("ui-conversation");
    reveal_strlit("ui-chat");
    reveal_strlit("ui-theme");
}

/// What a section of written settings holds.
proof fn lemma_written(
    doc: YamlView,
    s: SettingsView,
    active: Seq<char>,
    model: Seq<char>,
    key: Seq<char>,
)
    ensures
        yaml::pair_value(with_settings(doc, s, active, model), key) == (if key == "ui-theme"@ {
            Some(one_setting("preference"@, YamlView::Text(appearance_name(s.appearance))))
        } else if key == "ui-chat"@ {
            Some(
                one_setting(
                    "transcriptView"@,
                    YamlView::Text(transcript_name(s.transcript_view)),
                ),
            )
        } else if key == "ui-conversation"@ {
            Some(one_setting("busyEnter"@, YamlView::Text(enter_name(s.enter))))
        } else if key == "agent-default-model"@ {
            Some(route_section(active, model))
        } else if key == "llm-pi-ai"@ {
            Some(one_setting("providers"@, YamlView::Mapping(provider_defs(s.providers))))
        } else {
            yaml::pair_value(yaml::pairs_in(Some(doc)), key)
        }),
{
    let base = yaml::pairs_in(Some(doc));
    let va = one_setting("providers"@, YamlView::Mapping(provider_defs(s.providers)));
    let a = yaml::with_pair(base, "llm-pi-ai"@, va);
    let vb = route_section(active, model);
    let b = yaml::with_pair(a, "agent-default-model"@, vb);
    let vc = one_setting("busyEnter"@, YamlView::Text(enter_name(s.enter)));
    let c = yaml::with_pair(b, "ui-conversation"@, vc);
    let vd = one_setting("transcriptView"@, YamlView::Text(transcript_name(s.transcript_view)));
    let d = yaml::with_pair(c, "ui-chat"@, vd);
    let ve = one_setting("preference"@, YamlView::Text(appearance_name(s.appearance)));
    yaml::lemma_with_pair(base, "llm-pi-ai"@, va, key);
    yaml::lemma_with_pair(a, "agent-default-model"@, vb, key);
    yaml::lemma_with_pair(b, "ui-conversation"@, vc, key);
    yaml::lemma_with_pair(c, "ui-chat"@, vd, key);
    yaml::lemma_with_pair(d, "ui-theme"@, ve, key);
}

proof fn lemma_one_setting(key: Seq<char>, v: YamlView)
    ensures
        yaml::member(one_setting(key, v), key) == Some(v),
{
    yaml::lemma_with_pair(Seq::empty(), key, v, key);
}

proof fn lemma_names_differ()
    ensures
        "light"@ != "dark"@,
        "system"@ != "light"@,
        "system"@ != "dark"@,
        "normal"@ != "compact"@,
        "steer"@ != "queue"@,
        "provider"@ != "model"@,
{
    reveal_strlit("light");
    reveal_strlit("dark");
    reveal_strlit("system");
    reveal_strlit("normal");
    reveal_strlit("compact");
    reveal_strlit("steer");
    reveal_strlit("queue");
    reveal_strlit("provider");
    reveal_strlit("model");
    assert("light"@.len() == 5 && "dark"@.len() == 4 && "system"@.len() == 6);
    assert("normal"@[0] == 'n' && "compact"@[0] == 'c');
    assert("steer"@[0] == 's' && "queue"@[0] == 'q');
    assert("provider"@.len() == 8 && "model"@.len() == 5);
}

/// The choices that were written are read back: appearance, view, enter key and
/// model, and the provider where it is the built-in one or a known one.
pub proof fn saved_choices_are_read_back(
    doc: YamlView,
    s: SettingsView,
    active: Seq<char>,
    model: Seq<char>,
    keys: KeysView,
)
    requires
        active == "deepseek"@ || (active != "deepseek-official"@ && provider_at(
            providers_of(YamlView::Mapping(with_settings(doc, s, active, model)), keys),
            active,
            0,
        ) is Some),
    ensures
        ({
            let next = YamlView::Mapping(with_settings(doc, s, active, model));
            let got = settings_of(next, keys);
            &&& got.appearance == s.appearance
            &&& got.enter == s.enter
            &&& got.transcript_view == s.transcript_view
            &&& got.model == model
            &&& active_of(next, providers_of(next, keys)) == active
        }),
{
    lemma_sections();
    lemma_names_differ();
    lemma_written(doc, s, active, model, "ui-theme"@);
    lemma_written(doc, s, active, model, "ui-chat"@);
    lemma_written(doc, s, active, model, "ui-conversation"@);
    lemma_written(doc, s, active, model, "agent-default-model"@);
    lemma_one_setting("preference"@, YamlView::Text(appearance_name(s.appearance)));
    lemma_one_setting("transcriptView"@, YamlView::Text(transcript_name(s.transcript_view)));
    lemma_one_setting("busyEnter"@, YamlView::Text(enter_name(s.enter)));
    let route = YamlView::Text(
        if active == "deepseek"@ {
            "deepseek-official"@
        } else {
            active
        },
    );
    let one = yaml::with_pair(Seq::empty(), "provider"@, route);
    yaml::lemma_with_pair(one, "model"@, YamlView::Text(model), "model"@);
    yaml::lemma_with_pair(one, "model"@, YamlView::Text(model), "provider"@);
    yaml::lemma_with_pair(Seq::empty(), "provider"@, route, "provider"@);
}

/// Writing settings leaves every other section as it was.
pub proof fn saving_keeps_other_sections(
    doc: YamlView,
    s: SettingsView,
    active: Seq<char>,
    model: Seq<char>,
    section: Seq<char>,
)
    requires
        section != "llm-pi-ai"@,
        section != "agent-default-model"@,
        section != "ui-conversation"@,
        section != "ui-chat"@,
        section != "ui-theme"@,
    ensures
        yaml::member(YamlView::Mapping(with_settings(doc, s, active, model)), section)
            == yaml::member(doc, section),
{
    lemma_written(doc, s, active, model, section);
    if !(yaml::untagged(doc) is Mapping) {
        assert(yaml::pairs_in(Some(doc)).len() == 0);
    }
}

/// A model as it is read back: without a name it is named by its id, and its
/// numbers are written plainly or not at all.
pub open spec fn settled_model(m: ModelView) -> ModelView {
    ModelView {
        id: m.id,
        display_name: if m.display_name.len() > 0 {
            m.display_name
        } else {
            m.id
        },
        context_window: numeral(text::as_u64(m.context_window)),
        max_tokens: numeral(text::as_u64(m.max_tokens)),
    }
}

/// A provider as it is read back: without a name it is named by its id, its
/// protocol is the one that is spoken, and its key is the one kept for it.
pub open spec fn settled_provider(p: ProviderView, keys: KeysView) -> ProviderView {
    ProviderView {
        id: p.id,
        name: if p.name.len() > 0 {
            p.name
        } else {
            p.id
        },
        base_url: p.base_url,
        api_key: key_at(
            keys,
            if p.api_key.len() > 0 {
                key_ref(p.id)
            } else {
                Seq::empty()
            },
        ),
        protocol: "openai-completions"@,
        models: p.models.map_values(|m: ModelView| settled_model(m)),
    }
}

proof fn lemma_model_read(m: ModelView)
    ensures
        models_from(seq![model_row(m)]) == seq![settled_model(m)],
{
    reveal_strlit("id");
    reveal_strlit("name");
    reveal_strlit("contextWindow");
    reveal_strlit("maxTokens");
    assert("id"@.len() == 2 && "name"@.len() == 4 && "contextWindow"@.len() == 13
        && "maxTokens"@.len() == 9);
    let name = YamlView::Text(
        if m.display_name.len() > 0 {
            m.display_name
        } else {
            m.id
        },
    );
    let a = yaml::with_pair(Seq::empty(), "id"@, YamlView::Text(m.id));
    let b = yaml::with_pair(a, "name"@, name);
    let c = number_if(b, m.context_window, "contextWindow"@);
    let d = number_if(c, m.max_tokens, "maxTokens"@);
    let row = model_row(m);
    assert(row == YamlView::Mapping(d));
    assert forall|key: Seq<char>| #[trigger] yaml::pair_value(d, key) == (if key == "maxTokens"@
        && text::as_u64(m.max_tokens) is Some {
        Some(YamlView::Unsigned(text::as_u64(m.max_tokens)->0))
    } else if key == "contextWindow"@ && text::as_u64(m.context_window) is Some {
        Some(YamlView::Unsigned(text::as_u64(m.context_window)->0))
    } else if key == "name"@ {
        Some(name)
    } else if key == "id"@ {
        Some(YamlView::Text(m.id))
    } else {
        None
    }) by {
        yaml::lemma_with_pair(Seq::empty(), "id"@, YamlView::Text(m.id), key);
        yaml::lemma_with_pair(a, "name"@, name, key);
        if let Some(n) = text::as_u64(m.context_window) {
            yaml::lemma_with_pair(b, "contextWindow"@, YamlView::Unsigned(n), key);
        }
        if let Some(n) = text::as_u64(m.max_tokens) {
            yaml::lemma_with_pair(c, "maxTokens"@, YamlView::Unsigned(n), key);
        }
        assert(yaml::pair_value(Seq::empty(), key) is None);
    }
    let rows = seq![row];
    assert(yaml::member(row, "id"@) == yaml::pair_value(d, "id"@));
    assert(yaml::member(row, "name"@) == yaml::pair_value(d, "name"@));
    assert(yaml::member(row, "contextWindow"@) == yaml::pair_value(d, "contextWindow"@));
    assert(yaml::member(row, "maxTokens"@) == yaml::pair_value(d, "maxTokens"@));
    assert(rows.drop_last() =~= Seq::empty());
    assert(models_from(rows.drop_last()) =~= Seq::empty());
    assert(models_from(rows) =~= seq![settled_model(m)]);
}

proof fn lemma_models_read(models: Seq<ModelView>)
    ensures
        models_from(models.map_values(|m: ModelView| model_row(m))) == models.map_values(
            |m: ModelView| settled_model(m),
        ),
    decreases models.len(),
{
    let rows = models.map_values(|m: ModelView| model_row(m));
    let settled = models.map_values(|m: ModelView| settled_model(m));
    if models.len() == 0 {
        assert(models_from(rows) =~= settled);
    } else {
        let head = models.drop_last();
        lemma_models_read(head);
        assert(rows.drop_last() =~= head.map_values(|m: ModelView| model_row(m)));
        assert(settled.drop_last() =~= head.map_values(|m: ModelView| settled_model(m)));
        lemma_model_read(models.last());
        let one = seq![model_row(models.last())];
        assert(one.drop_last() =~= Seq::empty());
        assert(models_from(one.drop_last()) =~= Seq::empty());
        assert(one.last() == rows.last());
        let last = models_from(one);
        assert(last[0] == settled_model(models.last()));
        assert(models_from(rows) =~= settled.drop_last().push(settled.last()));
        assert(settled =~= settled.drop_last().push(settled.last()));
    }
}

proof fn lemma_def_read(p: ProviderView, keys: KeysView)
    ensures
        provider_from(p.id, provider_def(p), keys) == settled_provider(p, keys),
{
    reveal_strlit("apiKeyEnv");
    reveal_strlit("displayName");
    reveal_strlit("baseURL");
    reveal_strlit("api");
    reveal_strlit("models");
    assert("apiKeyEnv"@.len() == 9 && "displayName"@.len() == 11 && "baseURL"@.len() == 7
        && "api"@.len() == 3 && "models"@.len() == 6);
    let none: YamlPairs = Seq::empty();
    let va = YamlView::Text(key_ref(p.id));
    let a = pair_if(none, p.api_key.len() > 0, "apiKeyEnv"@, va);
    let vb = YamlView::Text(p.name);
    let b = pair_if(a, p.name.len() > 0 && p.name != p.id, "displayName"@, vb);
    let vc = YamlView::Text(p.base_url);
    let c = pair_if(b, p.base_url.len() > 0, "baseURL"@, vc);
    let vd = YamlView::Text("openai-completions"@);
    let d = yaml::with_pair(c, "api"@, vd);
    let ve = YamlView::Sequence(p.models.map_values(|m: ModelView| model_row(m)));
    let e = yaml::with_pair(d, "models"@, ve);
    assert(provider_def(p) == YamlView::Mapping(e));
    assert forall|key: Seq<char>| #[trigger] yaml::pair_value(e, key) == (if key == "models"@ {
        Some(ve)
    } else if key == "api"@ {
        Some(vd)
    } else if key == "baseURL"@ && p.base_url.len() > 0 {
        Some(vc)
    } else if key == "displayName"@ && p.name.len() > 0 && p.name != p.id {
        Some(vb)
    } else if key == "apiKeyEnv"@ && p.api_key.len() > 0 {
        Some(va)
    } else {
        None
    }) by {
        assert(yaml::pair_value(none, key) is None);
        yaml::lemma_with_pair(none, "apiKeyEnv"@, va, key);
        yaml::lemma_with_pair(a, "displayName"@, vb, key);
        yaml::lemma_with_pair(b, "baseURL"@, vc, key);
        yaml::lemma_with_pair(c, "api"@, vd, key);
        yaml::lemma_with_pair(d, "models"@, ve, key);
    }
    let def = provider_def(p);
    assert(yaml::member(def, "apiKeyEnv"@) == yaml::pair_value(e, "apiKeyEnv"@));
    assert(yaml::member(def, "displayName"@) == yaml::pair_value(e, "displayName"@));
    assert(yaml::member(def, "baseURL"@) == yaml::pair_value(e, "baseURL"@));
    assert(yaml::member(def, "api"@) == yaml::pair_value(e, "api"@));
    assert(yaml::member(def, "models"@) == yaml::pair_value(e, "models"@));
    lemma_models_read(p.models);
    if p.base_url.len() == 0 {
        assert(p.base_url =~= Seq::empty());
    }
}

/// Whether no two providers have the same id, and none has an empty one.
pub open spec fn routes_distinct(providers: Seq<ProviderView>) -> bool {
    &&& forall|i: int| 0 <= i < providers.len() ==> (#[trigger] providers[i]).id.len() > 0
    &&& forall|i: int, j: int|
        0 <= i < j < providers.len() ==> providers[i].id != providers[j].id
}

proof fn lemma_defs(providers: Seq<ProviderView>)
    requires
        routes_distinct(providers),
    ensures
        provider_defs(providers) == providers.map_values(
            |p: ProviderView| (YamlView::Text(p.id), provider_def(p)),
        ),
    decreases providers.len(),
{
    let all = providers.map_values(|p: ProviderView| (YamlView::Text(p.id), provider_def(p)));
    if providers.len() == 0 {
        assert(provider_defs(providers) =~= all);
    } else {
        let head = providers.drop_last();
        let last = providers.last();
        assert(routes_distinct(head)) by {
            assert forall|i: int| 0 <= i < head.len() implies (#[trigger] head[i]).id.len() > 0 by {
                assert(head[i] == providers[i]);
            }
            assert forall|i: int, j: int| 0 <= i < j < head.len() implies head[i].id
                != head[j].id by {
                assert(providers[i].id != providers[j].id);
            }
        }
        lemma_defs(head);
        let before = provider_defs(head);
        assert forall|i: int| 0 <= i < before.len() implies (#[trigger] before[i]).0
            != YamlView::Text(last.id) by {
            assert(before[i].0 == YamlView::Text(head[i].id));
            assert(providers[i].id != providers[providers.len() - 1].id);
        }
        lemma_absent(before, last.id, 0);
        assert(provider_defs(providers) =~= all);
    }
}

proof fn lemma_absent(pairs: YamlPairs, key: Seq<char>, at: int)
    requires
        0 <= at,
        forall|i: int| 0 <= i < pairs.len() ==> (#[trigger] pairs[i]).0 != YamlView::Text(key),
    ensures
        yaml::key_from(pairs, key, at) is None,
    decreases pairs.len() - at,
{
    if at < pairs.len() {
        lemma_absent(pairs, key, at + 1);
    }
}

proof fn lemma_defs_read(providers: Seq<ProviderView>, keys: KeysView)
    requires
        forall|i: int| 0 <= i < providers.len() ==> (#[trigger] providers[i]).id.len() > 0,
    ensures
        providers_from(
            providers.map_values(|p: ProviderView| (YamlView::Text(p.id), provider_def(p))),
            keys,
        ) == providers.map_values(|p: ProviderView| settled_provider(p, keys)),
    decreases providers.len(),
{
    let all = providers.map_values(|p: ProviderView| (YamlView::Text(p.id), provider_def(p)));
    let settled = providers.map_values(|p: ProviderView| settled_provider(p, keys));
    if providers.len() == 0 {
        assert(providers_from(all, keys) =~= settled);
    } else {
        let head = providers.drop_last();
        assert forall|i: int| 0 <= i < head.len() implies (#[trigger] head[i]).id.len() > 0 by {
            assert(head[i] == providers[i]);
        }
        lemma_defs_read(head, keys);
        assert(all.drop_last() =~= head.map_values(
            |p: ProviderView| (YamlView::Text(p.id), provider_def(p)),
        ));
        lemma_def_read(providers.last(), keys);
        assert(providers[providers.len() - 1].id.len() > 0);
        assert(providers_from(all, keys) =~= settled);
    }
}

/// The providers that were written are read back, as they settle.
pub proof fn saved_providers_are_read_back(
    doc: YamlView,
    s: SettingsView,
    active: Seq<char>,
    model: Seq<char>,
    keys: KeysView,
)
    requires
        routes_distinct(s.providers),
    ensures
        providers_of(YamlView::Mapping(with_settings(doc, s, active, model)), keys)
            == s.providers.map_values(|p: ProviderView| settled_provider(p, keys)),
{
    lemma_sections();
    lemma_written(doc, s, active, model, "llm-pi-ai"@);
    lemma_one_setting("providers"@, YamlView::Mapping(provider_defs(s.providers)));
    lemma_defs(s.providers);
    lemma_defs_read(s.providers, keys);
}

/// Whether the names of keys are texts, and no two are the same.
pub open spec fn names_distinct(refs: YamlPairs) -> bool {
    &&& forall|i: int| 0 <= i < refs.len() ==> (#[trigger] refs[i]).0 is Text
    &&& forall|i: int, j: int| 0 <= i < j < refs.len() ==> refs[i].0 != refs[j].0
}

proof fn lemma_key_read(refs: YamlPairs, name: Seq<char>)
    requires
        names_distinct(refs),
    ensures
        key_at(keys_from(refs), name) == or_else(
            yaml::text_in(yaml::pair_value(refs, name)),
            Seq::empty(),
        ),
    decreases refs.len(),
{
    if refs.len() > 0 {
        let head = refs.drop_last();
        let last = refs.last();
        assert(names_distinct(head)) by {
            assert forall|i: int| 0 <= i < head.len() implies (#[trigger] head[i]).0 is Text by {
                assert(head[i] == refs[i]);
            }
            assert forall|i: int, j: int| 0 <= i < j < head.len() implies head[i].0
                != head[j].0 by {
                assert(refs[i].0 != refs[j].0);
            }
        }
        lemma_key_read(head, name);
        yaml::lemma_key_place(head, name, 0);
        assert(refs[refs.len() - 1].0 is Text);
        assert(yaml::text_of(last.0) == Some(last.0->Text_0));
        if let Some(i) = yaml::key_from(head, name, 0) {
            assert(head[i] == refs[i]);
        }
        lemma_found_in_head(refs, name, 0);
        if last.0 == YamlView::Text(name) {
            assert forall|i: int| 0 <= i < head.len() implies (#[trigger] head[i]).0
                != YamlView::Text(name) by {
                assert(refs[i].0 != refs[refs.len() - 1].0);
            }
            lemma_absent(head, name, 0);
        }
        let keys = keys_from(refs);
        if yaml::text_of(last.1) is Some {
            assert(keys.drop_last() =~= keys_from(head));
        }
    }
}

proof fn lemma_found_in_head(refs: YamlPairs, name: Seq<char>, at: int)
    requires
        0 <= at < refs.len(),
    ensures
        yaml::key_from(refs, name, at) == (match yaml::key_from(refs.drop_last(), name, at) {
            Some(i) => Some(i),
            None => if refs.last().0 == YamlView::Text(name) {
                Some(refs.len() - 1)
            } else {
                None
            },
        }),
    decreases refs.len() - at,
{
    let head = refs.drop_last();
    if at < head.len() {
        assert(head[at] == refs[at]);
        lemma_found_in_head(refs, name, at + 1);
    } else {
        assert(yaml::key_from(refs, name, at + 1) is None);
    }
}

proof fn lemma_names_kept(refs: YamlPairs, name: Seq<char>, v: YamlView)
    requires
        names_distinct(refs),
    ensures
        names_distinct(yaml::with_pair(refs, name, v)),
{
    yaml::lemma_key_place(refs, name, 0);
    let next = yaml::with_pair(refs, name, v);
    assert forall|i: int, j: int| 0 <= i < j < next.len() implies next[i].0 != next[j].0 by {
        if j < refs.len() {
            assert(refs[i].0 != refs[j].0);
        }
    }
}

proof fn lemma_keys_put(refs: YamlPairs, patch: KeysView, name: Seq<char>)
    requires
        names_distinct(refs),
    ensures
        names_distinct(with_keys(refs, patch)),
        key_at(keys_from(with_keys(refs, patch)), name) == (if exists|i: int|
            0 <= i < patch.len() && (#[trigger] patch[i]).0 == name {
            key_at(patch, name)
        } else {
            key_at(keys_from(refs), name)
        }),
    decreases patch.len(),
{
    if patch.len() > 0 {
        let head = patch.drop_last();
        let last = patch.last();
        lemma_keys_put(refs, head, name);
        let before = with_keys(refs, head);
        lemma_names_kept(before, last.0, YamlView::Text(last.1));
        let after = with_keys(refs, patch);
        lemma_key_read(after, name);
        lemma_key_read(before, name);
        yaml::lemma_with_pair(before, last.0, YamlView::Text(last.1), name);
        if last.0 == name {
            assert(patch[patch.len() - 1].0 == name);
        } else {
            if exists|i: int| 0 <= i < patch.len() && (#[trigger] patch[i]).0 == name {
                let i = choose|i: int| 0 <= i < patch.len() && (#[trigger] patch[i]).0 == name;
                assert(head[i].0 == name);
            }
            if exists|i: int| 0 <= i < head.len() && (#[trigger] head[i]).0 == name {
                let i = choose|i: int| 0 <= i < head.len() && (#[trigger] head[i]).0 == name;
                assert(patch[i].0 == name);
            }
        }
    }
}

/// The keys of a credentials document as a list.
pub open spec fn refs_of(pairs: YamlPairs) -> YamlPairs {
    match yaml::pair_value(pairs, "refs"@) {
        Some(YamlView::Mapping(refs)) => refs,
        _ => Seq::empty(),
    }
}

/// The keys that were written are read back, and every other key is the one
/// that it was: in a document whose keys are a list, or that has none yet.
pub proof fn saved_keys_are_read_back(pairs: YamlPairs, patch: KeysView, name: Seq<char>)
    requires
        yaml::pair_value(pairs, "refs"@) is None || yaml::pair_value(pairs, "refs"@) matches Some(
            YamlView::Mapping(_),
        ),
        names_distinct(refs_of(pairs)),
    ensures
        key_at(
            keys_of(Some(with_credentials(YamlView::Mapping(pairs), patch))),
            name,
        ) == (if exists|i: int| 0 <= i < patch.len() && (#[trigger] patch[i]).0 == name {
            key_at(patch, name)
        } else {
            key_at(keys_of(Some(YamlView::Mapping(pairs))), name)
        }),
{
    reveal_strlit("version");
    reveal_strlit("refs");
    assert("version"@.len() == 7 && "refs"@.len() == 4);
    let versioned = match yaml::pair_value(pairs, "version"@) {
        Some(_) => pairs,
        None => yaml::with_pair(pairs, "version"@, YamlView::Unsigned(1)),
    };
    yaml::lemma_with_pair(pairs, "version"@, YamlView::Unsigned(1), "refs"@);
    assert(yaml::pair_value(versioned, "refs"@) == yaml::pair_value(pairs, "refs"@));
    let refs = refs_of(pairs);
    let next = YamlView::Mapping(with_keys(refs, patch));
    yaml::lemma_with_pair(versioned, "refs"@, next, "refs"@);
    lemma_keys_put(refs, patch, name);
    assert(yaml::pairs_in(yaml::member(YamlView::Mapping(pairs), "refs"@)) =~= refs);
}

/// Whether the names of keys and the keys are single lines.
pub open spec fn plain_keys(keys: KeysView) -> bool {
    forall|i: int|
        0 <= i < keys.len() ==> yaml::plain_text((#[trigger] keys[i]).0) && yaml::plain_text(
            keys[i].1,
        )
}

/// Whether the texts of a model are single lines.
pub open spec fn plain_model(m: ModelView) -> bool {
    yaml::plain_text(m.id) && yaml::plain_text(m.display_name)
}

/// Whether the texts of a provider, and the name of its key, are single lines.
pub open spec fn plain_provider(p: ProviderView) -> bool {
    &&& yaml::plain_text(p.id)
    &&& yaml::plain_text(key_ref(p.id))
    &&& yaml::plain_text(p.name)
    &&& yaml::plain_text(p.base_url)
    &&& forall|i: int| 0 <= i < p.models.len() ==> plain_model(#[trigger] p.models[i])
}

/// Whether the texts of settings are single lines.
pub open spec fn plain_settings(s: SettingsView, active: Seq<char>, model: Seq<char>) -> bool {
    &&& yaml::plain_text(active)
    &&& yaml::plain_text(model)
    &&& forall|i: int| 0 <= i < s.providers.len() ==> plain_provider(#[trigger] s.providers[i])
}

proof fn lemma_plain_names()
    ensures
        yaml::plain_text("id"@),
        yaml::plain_text("name"@),
        yaml::plain_text("contextWindow"@),
        yaml::plain_text("maxTokens"@),
        yaml::plain_text("apiKeyEnv"@),
        yaml::plain_text("displayName"@),
        yaml::plain_text("baseURL"@),
        yaml::plain_text("api"@),
        yaml::plain_text("openai-completions"@),
        yaml::plain_text("models"@),
{
    reveal_strlit("id");
    reveal_strlit("name");
    reveal_strlit("contextWindow");
    reveal_strlit("maxTokens");
    reveal_strlit("apiKeyEnv");
    reveal_strlit("displayName");
    reveal_strlit("baseURL");
    reveal_strlit("api");
    reveal_strlit("openai-completions");
    reveal_strlit("models");
}

proof fn lemma_plain_sections()
    ensures
        yaml::plain_text("llm-pi-ai"@),
        yaml::plain_text("providers"@),
        yaml::plain_text("agent-default-model"@),
        yaml::plain_text("provider"@),
        yaml::plain_text("model"@),
        yaml::plain_text("deepseek-official"@),
        yaml::plain_text("ui-conversation"@),
        yaml::plain_text("busyEnter"@),
        yaml::plain_text("ui-chat"@),
        yaml::plain_text("transcriptView"@),
        yaml::plain_text("ui-theme"@),
        yaml::plain_text("preference"@),
{
    reveal_strlit("llm-pi-ai");
    reveal_strlit("providers");
    reveal_strlit("agent-default-model");
    reveal_strlit("provider");
    reveal_strlit("model");
    reveal_strlit("deepseek-official");
    reveal_strlit("ui-conversation");
    reveal_strlit("busyEnter");
    reveal_strlit("ui-chat");
    reveal_strlit("transcriptView");
    reveal_strlit("ui-theme");
    reveal_strlit("preference");
}

proof fn lemma_plain_choices(s: SettingsView)
    ensures
        yaml::plain_text(enter_name(s.enter)),
        yaml::plain_text(transcript_name(s.transcript_view)),
        yaml::plain_text(appearance_name(s.appearance)),
{
    reveal_strlit("steer");
    reveal_strlit("queue");
    reveal_strlit("normal");
    reveal_strlit("compact");
    reveal_strlit("light");
    reveal_strlit("dark");
    reveal_strlit("system");
}

proof fn lemma_plain_row(m: ModelView)
    requires
        plain_model(m),
    ensures
        yaml::plain_yaml(model_row(m), 1),
{
    lemma_plain_names();
    let none = Seq::<(YamlView, YamlView)>::empty();
    assert(yaml::plain_yaml(YamlView::Mapping(none), 1));
    let id = YamlView::Text(m.id);
    yaml::lemma_plain_with_pair(none, "id"@, id, 1);
    let one = yaml::with_pair(none, "id"@, id);
    let name = YamlView::Text(
        if m.display_name.len() > 0 {
            m.display_name
        } else {
            m.id
        },
    );
    yaml::lemma_plain_with_pair(one, "name"@, name, 1);
    let two = yaml::with_pair(one, "name"@, name);
    if let Some(n) = text::as_u64(m.context_window) {
        yaml::lemma_plain_with_pair(two, "contextWindow"@, YamlView::Unsigned(n), 1);
    }
    let three = number_if(two, m.context_window, "contextWindow"@);
    if let Some(n) = text::as_u64(m.max_tokens) {
        yaml::lemma_plain_with_pair(three, "maxTokens"@, YamlView::Unsigned(n), 1);
    }
}

proof fn lemma_plain_def(p: ProviderView)
    requires
        plain_provider(p),
    ensures
        yaml::plain_yaml(provider_def(p), 3),
{
    lemma_plain_names();
    let none = Seq::<(YamlView, YamlView)>::empty();
    assert(yaml::plain_yaml(YamlView::Mapping(none), 3));
    let key = YamlView::Text(key_ref(p.id));
    yaml::lemma_plain_with_pair(none, "apiKeyEnv"@, key, 3);
    let a = pair_if(none, p.api_key.len() > 0, "apiKeyEnv"@, key);
    yaml::lemma_plain_with_pair(a, "displayName"@, YamlView::Text(p.name), 3);
    let b = pair_if(a, p.name.len() > 0 && p.name != p.id, "displayName"@, YamlView::Text(p.name));
    yaml::lemma_plain_with_pair(b, "baseURL"@, YamlView::Text(p.base_url), 3);
    let c = pair_if(b, p.base_url.len() > 0, "baseURL"@, YamlView::Text(p.base_url));
    let api = YamlView::Text("openai-completions"@);
    yaml::lemma_plain_with_pair(c, "api"@, api, 3);
    let d = yaml::with_pair(c, "api"@, api);
    let rows = p.models.map_values(|m: ModelView| model_row(m));
    assert forall|i: int| 0 <= i < rows.len() implies yaml::plain_yaml(#[trigger] rows[i], 1) by {
        lemma_plain_row(p.models[i]);
    }
    assert(yaml::plain_yaml(YamlView::Sequence(rows), 2));
    yaml::lemma_plain_with_pair(d, "models"@, YamlView::Sequence(rows), 3);
}

proof fn lemma_plain_defs(providers: Seq<ProviderView>)
    requires
        forall|i: int| 0 <= i < providers.len() ==> plain_provider(#[trigger] providers[i]),
    ensures
        yaml::plain_yaml(YamlView::Mapping(provider_defs(providers)), 4),
    decreases providers.len(),
{
    if providers.len() > 0 {
        let head = providers.drop_last();
        assert forall|i: int| 0 <= i < head.len() implies plain_provider(#[trigger] head[i]) by {
            assert(head[i] == providers[i]);
        }
        lemma_plain_defs(head);
        let p = providers[providers.len() - 1];
        lemma_plain_def(p);
        yaml::lemma_plain_with_pair(provider_defs(head), p.id, provider_def(p), 4);
    }
}

/// A section with one plain setting is put into a plain document.
proof fn lemma_plain_section(pairs: YamlPairs, section: Seq<char>, key: Seq<char>, v: YamlView)
    requires
        yaml::plain_yaml(YamlView::Mapping(pairs), 100),
        yaml::plain_text(section),
        yaml::plain_text(key),
        yaml::plain_yaml(v, 4),
    ensures
        yaml::plain_yaml(
            YamlView::Mapping(yaml::with_pair(pairs, section, one_setting(key, v))),
            100,
        ),
{
    let none = Seq::<(YamlView, YamlView)>::empty();
    assert(yaml::plain_yaml(YamlView::Mapping(none), 5));
    yaml::lemma_plain_with_pair(none, key, v, 5);
    yaml::lemma_deeper(one_setting(key, v), 5, 99);
    yaml::lemma_plain_with_pair(pairs, section, one_setting(key, v), 100);
}

/// A plain document stays plain when settings of single lines are put in.
pub proof fn kept_settings_stay_plain(
    doc: YamlView,
    s: SettingsView,
    active: Seq<char>,
    model: Seq<char>,
)
    requires
        yaml::plain_yaml(doc, 100),
        plain_settings(s, active, model),
    ensures
        yaml::plain_yaml(YamlView::Mapping(with_settings(doc, s, active, model)), 100),
{
    lemma_plain_sections();
    lemma_plain_choices(s);
    let base = yaml::pairs_in(Some(doc));
    assert(yaml::plain_yaml(YamlView::Mapping(base), 100));
    let defs = YamlView::Mapping(provider_defs(s.providers));
    lemma_plain_defs(s.providers);
    lemma_plain_section(base, "llm-pi-ai"@, "providers"@, defs);
    let a = yaml::with_pair(base, "llm-pi-ai"@, one_setting("providers"@, defs));
    let none = Seq::<(YamlView, YamlView)>::empty();
    assert(yaml::plain_yaml(YamlView::Mapping(none), 99));
    let route = YamlView::Text(
        if active == "deepseek"@ {
            "deepseek-official"@
        } else {
            active
        },
    );
    yaml::lemma_plain_with_pair(none, "provider"@, route, 99);
    yaml::lemma_plain_with_pair(
        yaml::with_pair(none, "provider"@, route),
        "model"@,
        YamlView::Text(model),
        99,
    );
    yaml::lemma_plain_with_pair(a, "agent-default-model"@, route_section(active, model), 100);
    let b = yaml::with_pair(a, "agent-default-model"@, route_section(active, model));
    let enter = YamlView::Text(enter_name(s.enter));
    lemma_plain_section(b, "ui-conversation"@, "busyEnter"@, enter);
    let c = yaml::with_pair(b, "ui-conversation"@, one_setting("busyEnter"@, enter));
    let view = YamlView::Text(transcript_name(s.transcript_view));
    lemma_plain_section(c, "ui-chat"@, "transcriptView"@, view);
    let d = yaml::with_pair(c, "ui-chat"@, one_setting("transcriptView"@, view));
    lemma_plain_section(
        d,
        "ui-theme"@,
        "preference"@,
        YamlView::Text(appearance_name(s.appearance)),
    );
}

proof fn lemma_plain_refs(refs: YamlPairs, patch: KeysView)
    requires
        yaml::plain_yaml(YamlView::Mapping(refs), 99),
        plain_keys(patch),
    ensures
        yaml::plain_yaml(YamlView::Mapping(with_keys(refs, patch)), 99),
    decreases patch.len(),
{
    if patch.len() > 0 {
        let head = patch.drop_last();
        assert(plain_keys(head)) by {
            assert forall|i: int| 0 <= i < head.len() implies yaml::plain_text(
                (#[trigger] head[i]).0,
            ) && yaml::plain_text(head[i].1) by {
                assert(head[i] == patch[i]);
            }
        }
        lemma_plain_refs(refs, head);
        let last = patch[patch.len() - 1];
        yaml::lemma_plain_with_pair(with_keys(refs, head), last.0, YamlView::Text(last.1), 99);
    }
}

/// A plain document stays plain when keys of single lines are put in.
pub proof fn kept_keys_stay_plain(doc: YamlView, patch: KeysView)
    requires
        yaml::plain_yaml(doc, 100),
        plain_keys(patch),
    ensures
        yaml::plain_yaml(with_credentials(doc, patch), 100),
{
    reveal_strlit("version");
    reveal_strlit("refs");
    if let YamlView::Mapping(pairs) = doc {
        yaml::lemma_plain_with_pair(pairs, "version"@, YamlView::Unsigned(1), 100);
        let versioned = match yaml::pair_value(pairs, "version"@) {
            Some(_) => pairs,
            None => yaml::with_pair(pairs, "version"@, YamlView::Unsigned(1)),
        };
        yaml::lemma_plain_value(versioned, "refs"@, 100);
        let refs = match yaml::pair_value(versioned, "refs"@) {
            Some(YamlView::Mapping(refs)) => refs,
            _ => Seq::empty(),
        };
        assert(yaml::plain_yaml(YamlView::Mapping(refs), 99));
        lemma_plain_refs(refs, patch);
        yaml::lemma_plain_with_pair(
            versioned,
            "refs"@,
            YamlView::Mapping(with_keys(refs, patch)),
            100,
        );
    }
}

/// A plain document stays plain when the permission of new sessions is set.
pub proof fn kept_preset_stays_plain(doc: YamlView, preset: Seq<char>)
    requires
        yaml::plain_yaml(doc, 100),
        yaml::plain_text(preset),
    ensures
        yaml::plain_yaml(with_preset(doc, preset), 100),
{
    reveal_strlit("permission");
    reveal_strlit("defaultPreset");
    if let YamlView::Mapping(pairs) = doc {
        yaml::lemma_plain_value(pairs, "permission"@, 100);
        let v = YamlView::Text(preset);
        match yaml::pair_value(pairs, "permission"@) {
            Some(YamlView::Mapping(inner)) => {
                yaml::lemma_plain_with_pair(inner, "defaultPreset"@, v, 99);
                let next = YamlView::Mapping(yaml::with_pair(inner, "defaultPreset"@, v));
                yaml::lemma_plain_with_pair(pairs, "permission"@, next, 100);
            },
            Some(other) => {
                yaml::lemma_plain_with_pair(pairs, "permission"@, other, 100);
            },
            None => {
                lemma_plain_section(pairs, "permission"@, "defaultPreset"@, v);
            },
        }
    }
}

// ---------------------------------------------------------------------------
// the default permission
// ---------------------------------------------------------------------------

/// The permission of new sessions: the one set, where it is one that there is.
pub open spec fn default_preset_of(doc: YamlView) -> Seq<char> {
    match setting(doc, "permission"@, "defaultPreset"@) {
        Some(p) => if crate::fs::mode_named(p) is Some {
            p
        } else {
            "workspace-write"@
        },
        None => "workspace-write"@,
    }
}

/// The permission of new sessions, from a document that was read.
pub fn default_preset_in(doc: &Yaml) -> (r: String)
    ensures
        r@ == default_preset_of(doc.deep_view()),
{
    match read_setting(doc, "permission", "defaultPreset") {
        Some(p) => if session::is_preset(p.as_str()) {
            p
        } else {
            "workspace-write".to_string()
        },
        None => "workspace-write".to_string(),
    }
}

/// The permission of new sessions, from the settings as they stand on disk.
pub fn default_permission_preset(raw: &Option<String>) -> (r: String)
    ensures
        r@ == default_preset_of(yaml_or_empty(raw.deep_view())),
{
    let doc = open_document(raw);
    default_preset_in(&doc)
}

/// A mapping, under any tags, with a value under a text; any other value as it
/// is.
pub open spec fn with_member(v: YamlView, key: Seq<char>, value: YamlView) -> YamlView
    decreases v,
{
    match v {
        YamlView::Mapping(pairs) => YamlView::Mapping(yaml::with_pair(pairs, key, value)),
        YamlView::Tagged(tag, inner) => if inner.len() == 1 {
            YamlView::Tagged(tag, seq![with_member(inner[0], key, value)])
        } else {
            v
        },
        _ => v,
    }
}

/// A settings document with another permission for new sessions. A section
/// that is no mapping is left as it is; so is a document that is none.
pub open spec fn with_preset(v: YamlView, preset: Seq<char>) -> YamlView
    decreases v,
{
    match v {
        YamlView::Mapping(pairs) => YamlView::Mapping(
            yaml::with_pair(
                pairs,
                "permission"@,
                match yaml::pair_value(pairs, "permission"@) {
                    Some(p) => with_member(p, "defaultPreset"@, YamlView::Text(preset)),
                    None => one_setting("defaultPreset"@, YamlView::Text(preset)),
                },
            ),
        ),
        YamlView::Tagged(tag, inner) => if inner.len() == 1 {
            YamlView::Tagged(tag, seq![with_preset(inner[0], preset)])
        } else {
            v
        },
        _ => v,
    }
}

fn set_member(v: Yaml, key: &str, value: Yaml) -> (r: Yaml)
    ensures
        r.deep_view() == with_member(v.deep_view(), key@, value.deep_view()),
    decreases v,
{
    match v {
        Yaml::Mapping(pairs) => {
            proof {
                yaml::lemma_mapping_view(pairs);
            }
            let mut pairs = pairs;
            yaml::put(&mut pairs, key, value);
            mapping(pairs)
        },
        Yaml::Tagged(tag, inner) => {
            proof {
                yaml::lemma_tagged_view(tag, inner);
            }
            let mut inner = inner;
            if inner.len() == 1 {
                assert(decreases_to!(v => v->Tagged_1));
                assert(decreases_to!(v->Tagged_1 => v->Tagged_1@));
                assert(decreases_to!(v->Tagged_1@ => v->Tagged_1@[0]));
                let one = inner.remove(0);
                let next = set_member(one, key, value);
                inner.push(next);
                assert(yaml::items_view(inner@) =~= seq![next.deep_view()]);
            }
            proof {
                yaml::lemma_tagged_view(tag, inner);
            }
            Yaml::Tagged(tag, inner)
        },
        Yaml::Sequence(items) => {
            proof {
                yaml::lemma_sequence_view(items);
            }
            Yaml::Sequence(items)
        },
        other => other,
    }
}

/// A settings document with another permission for new sessions.
pub fn put_preset(v: Yaml, preset: &str) -> (r: Yaml)
    ensures
        r.deep_view() == with_preset(v.deep_view(), preset@),
    decreases v,
{
    match v {
        Yaml::Mapping(pairs) => {
            proof {
                yaml::lemma_mapping_view(pairs);
            }
            let mut pairs = pairs;
            match yaml::find_key(&pairs, "permission") {
                Some(i) => {
                    let ghost before = yaml::pairs_view(pairs@);
                    let mut taken = Yaml::Unsigned(0);
                    std::mem::swap(&mut pairs[i].1, &mut taken);
                    let next = set_member(taken, "defaultPreset", Yaml::Text(preset.to_string()));
                    pairs[i].1 = next;
                    assert(yaml::pairs_view(pairs@) =~= before.update(
                        i as int,
                        (before[i as int].0, next.deep_view()),
                    ));
                },
                None => {
                    let section = make_setting("defaultPreset", Yaml::Text(preset.to_string()));
                    yaml::put(&mut pairs, "permission", section);
                },
            }
            mapping(pairs)
        },
        Yaml::Tagged(tag, inner) => {
            proof {
                yaml::lemma_tagged_view(tag, inner);
            }
            let mut inner = inner;
            if inner.len() == 1 {
                assert(decreases_to!(v => v->Tagged_1));
                assert(decreases_to!(v->Tagged_1 => v->Tagged_1@));
                assert(decreases_to!(v->Tagged_1@ => v->Tagged_1@[0]));
                let one = inner.remove(0);
                let next = put_preset(one, preset);
                inner.push(next);
                assert(yaml::items_view(inner@) =~= seq![next.deep_view()]);
            }
            proof {
                yaml::lemma_tagged_view(tag, inner);
            }
            Yaml::Tagged(tag, inner)
        },
        Yaml::Sequence(items) => {
            proof {
                yaml::lemma_sequence_view(items);
            }
            Yaml::Sequence(items)
        },
        other => other,
    }
}

/// The settings document to write so that new sessions have another
/// permission; nothing where the document is no mapping.
pub fn set_default_permission_preset(raw: &Option<String>, preset: &str) -> (r: Option<String>)
    ensures
        r.deep_view() == (if yaml::untagged(yaml_or_empty(raw.deep_view())) is Mapping {
            yaml::printed_yaml(with_preset(yaml_or_empty(raw.deep_view()), preset@))
        } else {
            None
        }),
        yaml::plain_yaml(yaml_or_empty(raw.deep_view()), 100) && yaml::plain_text(preset@)
            && yaml_or_empty(raw.deep_view()) is Mapping ==> read_yaml(r.deep_view()) == Some(
            with_preset(yaml_or_empty(raw.deep_view()), preset@),
        ),
{
    proof {
        let before = yaml_or_empty(raw.deep_view());
        if yaml::plain_yaml(before, 100) && yaml::plain_text(preset@) {
            kept_preset_stays_plain(before, preset@);
        }
    }
    let doc = open_document(raw);
    let is_mapping = match doc.untag() {
        Yaml::Mapping(pairs) => {
            proof {
                yaml::lemma_mapping_view(*pairs);
            }
            true
        },
        other => {
            proof {
                lemma_not_mapping(*other);
            }
            false
        },
    };
    if !is_mapping {
        return None;
    }
    let next = put_preset(doc, preset);
    yaml::render_yaml(&next)
}

/// The permission that was set for new sessions is the one that they get.
pub proof fn set_preset_is_the_default(pairs: YamlPairs, preset: Seq<char>)
    requires
        crate::fs::mode_named(preset) is Some,
        yaml::pair_value(pairs, "permission"@) is None || yaml::pair_value(
            pairs,
            "permission"@,
        ) matches Some(YamlView::Mapping(_)),
    ensures
        default_preset_of(with_preset(YamlView::Mapping(pairs), preset)) == preset,
{
    let text = YamlView::Text(preset);
    match yaml::pair_value(pairs, "permission"@) {
        Some(YamlView::Mapping(inner)) => {
            let next = YamlView::Mapping(yaml::with_pair(inner, "defaultPreset"@, text));
            yaml::lemma_with_pair(pairs, "permission"@, next, "permission"@);
            yaml::lemma_with_pair(inner, "defaultPreset"@, text, "defaultPreset"@);
        },
        _ => {
            let next = one_setting("defaultPreset"@, text);
            yaml::lemma_with_pair(pairs, "permission"@, next, "permission"@);
            lemma_one_setting("defaultPreset"@, text);
        },
    }
}

/// A provider that was saved and read again is the same provider: its id, its
/// name and address, the ids and names of its models and their sizes, and the
/// key that the credentials hold for it.
pub proof fn saved_provider_stays_itself(p: ProviderView, keys: KeysView, i: int)
    requires
        p.name.len() > 0,
        p.api_key.len() > 0,
    ensures
        ({
            let r = settled_provider(p, keys);
            &&& r.id == p.id
            &&& r.name == p.name
            &&& r.base_url == p.base_url
            &&& r.api_key == key_at(keys, key_ref(p.id))
            &&& r.models.len() == p.models.len()
            &&& 0 <= i < p.models.len() ==> r.models[i].id == p.models[i].id && (
            p.models[i].display_name.len() > 0 ==> r.models[i].display_name
                == p.models[i].display_name) && (forall|n: u64|
                p.models[i].context_window == #[trigger] text::dec(n as nat)
                    ==> r.models[i].context_window == p.models[i].context_window) && (forall|
                n: u64,
            |
                p.models[i].max_tokens == #[trigger] text::dec(n as nat) ==> r.models[i].max_tokens
                    == p.models[i].max_tokens)
        }),
{
    if 0 <= i < p.models.len() {
        assert forall|n: u64| p.models[i].context_window == #[trigger] text::dec(n as nat) implies settled_provider(
            p,
            keys,
        ).models[i].context_window == p.models[i].context_window by {
            text::numeral_is_read_back(n);
        }
        assert forall|n: u64| p.models[i].max_tokens == #[trigger] text::dec(n as nat) implies settled_provider(
            p,
            keys,
        ).models[i].max_tokens == p.models[i].max_tokens by {
            text::numeral_is_read_back(n);
        }
    }
}

/// A provider without a name of its own goes by its id, and one without a key
/// names none.
pub proof fn nameless_provider_goes_by_its_id(p: ProviderView, keys: KeysView)
    ensures
        p.name.len() == 0 ==> settled_provider(p, keys).name == p.id,
        p.api_key.len() == 0 ==> settled_provider(p, keys).api_key == key_at(keys, Seq::empty()),
{
}

/// The choices are written under their keys and by their names.
pub proof fn choices_are_written_by_name(
    doc: YamlView,
    s: SettingsView,
    active: Seq<char>,
    model: Seq<char>,
)
    ensures
        ({
            let next = YamlView::Mapping(with_settings(doc, s, active, model));
            let theme = setting(next, "ui-theme"@, "preference"@);
            let enter = setting(next, "ui-conversation"@, "busyEnter"@);
            let view = setting(next, "ui-chat"@, "transcriptView"@);
            &&& theme == Some("light"@) <==> s.appearance is Light
            &&& theme == Some("dark"@) <==> s.appearance is Dark
            &&& theme == Some("system"@) <==> s.appearance is System
            &&& enter == Some("steer"@) <==> s.enter is Interrupt
            &&& enter == Some("queue"@) <==> s.enter is Queue
            &&& view == Some("normal"@) <==> s.transcript_view is Normal
            &&& view == Some("compact"@) <==> s.transcript_view is Compact
            &&& setting(next, "agent-default-model"@, "model"@) == Some(model)
            &&& active != "deepseek"@ ==> setting(next, "agent-default-model"@, "provider"@)
                == Some(active)
            &&& active == "deepseek"@ ==> setting(next, "agent-default-model"@, "provider"@)
                == Some("deepseek-official"@)
        }),
{
    let next = YamlView::Mapping(with_settings(doc, s, active, model));
    lemma_sections();
    lemma_names_differ();
    lemma_written(doc, s, active, model, "ui-theme"@);
    lemma_written(doc, s, active, model, "ui-conversation"@);
    lemma_written(doc, s, active, model, "ui-chat"@);
    lemma_written(doc, s, active, model, "agent-default-model"@);
    lemma_one_setting("preference"@, YamlView::Text(appearance_name(s.appearance)));
    lemma_one_setting("busyEnter"@, YamlView::Text(enter_name(s.enter)));
    lemma_one_setting("transcriptView"@, YamlView::Text(transcript_name(s.transcript_view)));
    let v = YamlView::Text(
        if active == "deepseek"@ {
            "deepseek-official"@
        } else {
            active
        },
    );
    let one = yaml::with_pair(Seq::empty(), "provider"@, v);
    yaml::lemma_with_pair(Seq::empty(), "provider"@, v, "provider"@);
    yaml::lemma_with_pair(one, "model"@, YamlView::Text(model), "provider"@);
    yaml::lemma_with_pair(one, "model"@, YamlView::Text(model), "model"@);
    assert(yaml::member(next, "ui-theme"@) == yaml::pair_value(
        with_settings(doc, s, active, model),
        "ui-theme"@,
    ));
    assert(yaml::member(next, "ui-conversation"@) == yaml::pair_value(
        with_settings(doc, s, active, model),
        "ui-conversation"@,
    ));
    assert(yaml::member(next, "ui-chat"@) == yaml::pair_value(
        with_settings(doc, s, active, model),
        "ui-chat"@,
    ));
    assert(yaml::member(next, "agent-default-model"@) == yaml::pair_value(
        with_settings(doc, s, active, model),
        "agent-default-model"@,
    ));
}

/// A provider reads from its definition: the name, the address and the kind of
/// its interface under their keys, and the key that the credentials hold under
/// the name that the definition gives.
pub proof fn provider_reads_from_its_definition(route: Seq<char>, def: YamlView, keys: KeysView)
    ensures
        ({
            let p = provider_from(route, def, keys);
            &&& p.id == route
            &&& yaml::member(def, "displayName"@) matches Some(YamlView::Text(s)) ==> p.name == s
            &&& yaml::member(def, "displayName"@) is None ==> p.name == route
            &&& yaml::member(def, "baseURL"@) matches Some(YamlView::Text(s)) ==> p.base_url == s
            &&& yaml::member(def, "apiKeyEnv"@) matches Some(YamlView::Text(s)) ==> p.api_key
                == key_at(keys, s)
            &&& yaml::member(def, "api"@) matches Some(YamlView::Text(s)) ==> p.protocol == s
        }),
{
}

/// The models of a provider are read one by one; an item without an id is none.
pub proof fn models_are_read_one_by_one(items: Seq<YamlView>, m: YamlView, id: Seq<char>)
    ensures
        yaml::member(m, "id"@) == Some(YamlView::Text(id)) ==> models_from(items.push(m)).drop_last()
            == models_from(items) && models_from(items.push(m)).len() == models_from(items).len()
            + 1 && models_from(items.push(m)).last().id == id,
        yaml::member(m, "id"@) == Some(YamlView::Text(id)) ==> (yaml::member(
            m,
            "contextWindow"@,
        ) matches Some(YamlView::Unsigned(n)) ==> text::as_u64(
            models_from(items.push(m)).last().context_window,
        ) == Some(n)),
        yaml::member(m, "id"@) == Some(YamlView::Text(id)) ==> (yaml::member(
            m,
            "maxTokens"@,
        ) matches Some(YamlView::Unsigned(n)) ==> text::as_u64(
            models_from(items.push(m)).last().max_tokens,
        ) == Some(n)),
        yaml::member(m, "id"@) == Some(YamlView::Text(id)) ==> (yaml::member(
            m,
            "name"@,
        ) matches Some(YamlView::Text(s)) ==> models_from(items.push(m)).last().display_name == s),
        yaml::member(m, "id"@) is None ==> models_from(items.push(m)) == models_from(items),
{
    assert(items.push(m).drop_last() =~= items);
    if yaml::member(m, "id"@) == Some(YamlView::Text(id)) {
        assert(models_from(items.push(m)).drop_last() =~= models_from(items));
        if let Some(YamlView::Unsigned(n)) = yaml::member(m, "contextWindow"@) {
            text::numeral_is_read_back(n);
        }
        if let Some(YamlView::Unsigned(n)) = yaml::member(m, "maxTokens"@) {
            text::numeral_is_read_back(n);
        }
    }
}

/// Every key that was entered is written: that of each provider under the name
/// that its definition gives, and the built-in provider's unless it is locked.
pub proof fn every_key_is_written(s: SettingsView, key: Seq<char>, locked: bool, i: int)
    requires
        0 <= i < s.providers.len(),
    ensures
        s.providers[i].api_key.len() > 0 ==> key_patch(s, key, locked).contains(
            (key_ref(s.providers[i].id), s.providers[i].api_key),
        ),
        key.len() > 0 && !locked ==> key_patch(s, key, locked).len() > 0 && key_patch(
            s,
            key,
            locked,
        )[0] == ("DEEPSEEK_API_KEY"@, key),
        locked || key.len() == 0 ==> key_patch(s, key, locked) == provider_keys(s.providers),
{
    let patch = key_patch(s, key, locked);
    let keys = provider_keys(s.providers);
    if s.providers[i].api_key.len() > 0 {
        lemma_key_listed(s.providers, i);
        let pair = (key_ref(s.providers[i].id), s.providers[i].api_key);
        let k = choose|k: int| 0 <= k < keys.len() && keys[k] == pair;
        assert(patch[patch.len() - keys.len() + k] == pair);
    }
    if locked || key.len() == 0 {
        assert(patch =~= keys);
    }
}

proof fn lemma_key_listed(providers: Seq<ProviderView>, i: int)
    requires
        0 <= i < providers.len(),
        providers[i].api_key.len() > 0,
    ensures
        provider_keys(providers).contains((key_ref(providers[i].id), providers[i].api_key)),
    decreases providers.len(),
{
    let keys = provider_keys(providers);
    let pair = (key_ref(providers[i].id), providers[i].api_key);
    if i == providers.len() - 1 {
        assert(keys[keys.len() - 1] == pair);
    } else {
        lemma_key_listed(providers.drop_last(), i);
        let head = provider_keys(providers.drop_last());
        let k = choose|k: int| 0 <= k < head.len() && head[k] == pair;
        assert(keys[k] == pair);
    }
}

/// The name of a key is that of its route in capitals, for a route of letters,
/// and always ends in the same way.
pub proof fn key_is_named_after_its_route(route: Seq<char>)
    ensures
        text::finishes(key_ref(route), "_API_KEY"@),
        (forall|i: int| 0 <= i < route.len() ==> is_letter(#[trigger] route[i])) ==> key_ref(route)
            == route.map_values(|c: char| text::upper_ascii(c)) + "_API_KEY"@,
{
    let r = key_ref(route);
    assert(r.skip(r.len() - "_API_KEY"@.len()) =~= "_API_KEY"@);
    if forall|i: int| 0 <= i < route.len() ==> is_letter(#[trigger] route[i]) {
        lemma_letters_kept(route);
        let up = route.map_values(|c: char| text::upper_ascii(c));
        if up.len() > 0 {
            assert(is_letter(route[route.len() - 1]));
            assert(up.last() != '_');
            assert(!seq!['_'].contains(up.last()));
        }
    }
}

proof fn lemma_letters_kept(route: Seq<char>)
    requires
        forall|i: int| 0 <= i < route.len() ==> is_letter(#[trigger] route[i]),
    ensures
        ref_chars(route) == route.map_values(|c: char| text::upper_ascii(c)),
    decreases route.len(),
{
    let up = |c: char| text::upper_ascii(c);
    if route.len() > 0 {
        let head = route.drop_last();
        assert forall|i: int| 0 <= i < head.len() implies is_letter(#[trigger] head[i]) by {
            assert(head[i] == route[i]);
        }
        lemma_letters_kept(head);
        assert(is_letter(route[route.len() - 1]));
        assert(head.map_values(up).push(up(route.last())) =~= route.map_values(up));
    } else {
        assert(route.map_values(up) =~= Seq::<char>::empty());
    }
}

/// A provider is found by its id: the first that has it.
pub proof fn provider_is_found_by_its_id(providers: Seq<ProviderView>, id: Seq<char>, from: int)
    requires
        0 <= from <= providers.len(),
    ensures
        match provider_at(providers, id, from) {
            Some(i) => from <= i < providers.len() && providers[i].id == id && forall|j: int|
                from <= j < i ==> (#[trigger] providers[j]).id != id,
            None => forall|j: int| from <= j < providers.len() ==> (#[trigger] providers[j]).id != id,
        },
    decreases providers.len() - from,
{
    if from < providers.len() && providers[from].id != id {
        provider_is_found_by_its_id(providers, id, from + 1);
    }
}

/// A key is found under its name: the last that was given counts.
pub proof fn last_key_counts(keys: KeysView, name: Seq<char>, key: Seq<char>, other: Seq<char>)
    ensures
        key_at(keys.push((name, key)), name) == key,
        other != name ==> key_at(keys.push((name, key)), other) == key_at(keys, other),
        key_at(Seq::empty(), name).len() == 0,
{
    assert(keys.push((name, key)).drop_last() =~= keys);
}

/// The provider that is used is one that is there, or the built-in one; the
/// model is the one that was chosen, or the first of the provider.
pub proof fn active_provider_is_there(doc: YamlView, providers: Seq<ProviderView>)
    ensures
        active_of(doc, providers) == "deepseek"@ || exists|i: int|
            0 <= i < providers.len() && (#[trigger] providers[i]).id == active_of(doc, providers),
        setting(doc, "agent-default-model"@, "model"@) matches Some(m) ==> model_of(doc, providers)
            == m,
        setting(doc, "agent-default-model"@, "provider"@) matches Some(p) ==> (p
            != "deepseek-official"@ && provider_at(providers, p, 0) is Some ==> active_of(
            doc,
            providers,
        ) == p),
        setting(doc, "agent-default-model"@, "provider"@) is None ==> active_of(doc, providers)
            == "deepseek"@,
{
    if let Some(p) = setting(doc, "agent-default-model"@, "provider"@) {
        provider_is_found_by_its_id(providers, p, 0);
    }
}

/// The default preset is one that names a mode: the one that was set, else the
/// workspace's.
pub proof fn default_preset_names_a_mode(doc: YamlView)
    ensures
        crate::fs::mode_named(default_preset_of(doc)) is Some,
        setting(doc, "permission"@, "defaultPreset"@) matches Some(p) ==> (crate::fs::mode_named(p)
            is Some ==> default_preset_of(doc) == p),
        setting(doc, "permission"@, "defaultPreset"@) is None ==> crate::fs::mode_named(
            default_preset_of(doc),
        ) == Some(crate::fs::FsMode::WorkspaceWrite),
{
    crate::fs::mode_names_round_trip(crate::fs::FsMode::WorkspaceWrite, "workspace-write"@);
}

} // verus!
