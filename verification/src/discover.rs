//! Asking a provider for its models: what is asked, what comes of the answer,
//! and which of the models are taken over.

use crate::ledger;
use crate::providers;
use crate::roster;
use crate::settings::{CustomModel, CustomProvider, ModelView, ProviderView};
use crate::settings;
use crate::text;
use crate::usage;
use vstd::prelude::*;

verus! {

/// Where the models go that are taken over.
#[derive(Clone, Debug)]
pub enum FetchTarget {
    /// The provider that is being declared.
    Declare,
    /// A provider that there is.
    Edit(String),
}

/// A model that a provider listed.
#[derive(Clone, Debug)]
pub struct DiscoveredModel {
    pub id: String,
    pub name: String,
    pub context_window: Option<u64>,
    pub max_tokens: Option<u64>,
}

/// The contents of a listed model.
pub struct ListedView {
    pub id: Seq<char>,
    pub name: Seq<char>,
    pub context_window: Option<u64>,
    pub max_tokens: Option<u64>,
}

impl DeepView for DiscoveredModel {
    type V = ListedView;

    open spec fn deep_view(&self) -> ListedView {
        ListedView {
            id: self.id@,
            name: self.name@,
            context_window: self.context_window,
            max_tokens: self.max_tokens,
        }
    }
}

// ---------------------------------------------------------------------------
// asking
// ---------------------------------------------------------------------------

/// What a provider is asked with.
#[derive(Clone, Debug)]
pub struct FetchRequest {
    pub base: String,
    /// The key, where there is one.
    pub key: Option<String>,
    pub api: Option<String>,
}

/// The contents of what a provider is asked with.
pub struct RequestView {
    pub base: Seq<char>,
    pub key: Option<Seq<char>>,
    pub api: Option<Seq<char>>,
}

impl DeepView for FetchRequest {
    type V = RequestView;

    open spec fn deep_view(&self) -> RequestView {
        RequestView {
            base: self.base@,
            key: self.key.deep_view(),
            api: self.api.deep_view(),
        }
    }
}

/// A text that is there, or nothing.
pub open spec fn some_text(s: Seq<char>) -> Option<Seq<char>> {
    if s.len() > 0 {
        Some(s)
    } else {
        None
    }
}

/// What was typed, else another text.
pub open spec fn typed_or(typed: Seq<char>, other: Seq<char>) -> Seq<char> {
    if text::trimmed(typed).len() > 0 {
        text::trimmed(typed)
    } else {
        other
    }
}

/// The address of a provider that there is: its own, else that of the built-in
/// list.
pub open spec fn kept_address(stored: Option<ProviderView>, id: Seq<char>) -> Seq<char> {
    match stored {
        Some(p) if p.base_url.len() > 0 => p.base_url,
        _ => match providers::catalog_address(id) {
            Some(s) => s,
            None => Seq::empty(),
        },
    }
}

/// What a provider that there is is asked with; none where it has no address.
pub open spec fn edit_request(
    stored: Option<ProviderView>,
    id: Seq<char>,
    base: Seq<char>,
    key: Seq<char>,
) -> Option<RequestView> {
    let base = typed_or(base, kept_address(stored, id));
    if base.len() == 0 {
        None
    } else {
        Some(
            RequestView {
                base,
                key: some_text(
                    typed_or(
                        key,
                        match stored {
                            Some(p) => p.api_key,
                            None => Seq::empty(),
                        },
                    ),
                ),
                api: match stored {
                    Some(p) => Some(p.protocol),
                    None => None,
                },
            },
        )
    }
}

/// What a provider that is being declared is asked with.
pub open spec fn declare_request(base: Seq<char>, key: Seq<char>) -> RequestView {
    RequestView {
        base: text::trimmed(base),
        key: some_text(text::trimmed(key)),
        api: Some("openai"@),
    }
}

/// What is said of a provider without an address.
pub open spec fn no_address(id: Seq<char>) -> Seq<char> {
    "pi-ai ships no catalog for provider \""@ + id
        + "\", so its models can only come from its endpoint; set a baseURL, or enter this provider's models by hand"@
}

/// The provider with an id.
pub open spec fn stored_provider(list: Seq<ProviderView>, id: Seq<char>) -> Option<ProviderView> {
    match settings::provider_at(list, id, 0) {
        Some(i) => Some(list[i]),
        None => None,
    }
}

fn key_or_none(s: String) -> (r: Option<String>)
    ensures
        r.deep_view() == some_text(s@),
{
    if text::char_count(s.as_str()) > 0 {
        Some(s)
    } else {
        None
    }
}

fn first_or(typed: &str, other: String) -> (r: String)
    ensures
        r@ == typed_or(typed@, other@),
{
    let t = text::trim(typed);
    if text::char_count(t.as_str()) > 0 {
        t
    } else {
        other
    }
}

fn catalog_or_nothing(id: &str) -> (r: String)
    ensures
        r@ == (match providers::catalog_address(id@) {
            Some(s) => s,
            None => Seq::empty(),
        }),
{
    match providers::catalog_base_url(id) {
        Some(s) => s,
        None => String::new(),
    }
}

/// What a provider is asked with, from what was typed and what is kept; an
/// error says that a provider that there is has no address.
pub fn fetch_models(
    target: &FetchTarget,
    list: &Vec<CustomProvider>,
    base: &str,
    key: &str,
) -> (r: Result<FetchRequest, String>)
    ensures
        match target {
            FetchTarget::Declare => r matches Ok(q) && q.deep_view() == declare_request(base@, key@),
            FetchTarget::Edit(id) => match edit_request(
                stored_provider(list.deep_view(), id@),
                id@,
                base@,
                key@,
            ) {
                Some(q) => r matches Ok(got) && got.deep_view() == q,
                None => r matches Err(e) && e@ == no_address(id@),
            },
        },
{
    match target {
        FetchTarget::Declare => Ok(
            FetchRequest {
                base: text::trim(base),
                key: key_or_none(text::trim(key)),
                api: Some("openai".to_string()),
            },
        ),
        FetchTarget::Edit(id) => {
            let (kept_base, kept_key, api) = match settings::find_provider(list, id.as_str()) {
                Some(i) => {
                    assert(list.deep_view()[i as int] == list@[i as int].deep_view());
                    let p: &CustomProvider = &list[i];
                    let b = if text::char_count(p.base_url.as_str()) > 0 {
                        p.base_url.clone()
                    } else {
                        catalog_or_nothing(id.as_str())
                    };
                    (b, p.api_key.clone(), Some(p.protocol.clone()))
                },
                None => (catalog_or_nothing(id.as_str()), String::new(), None),
            };
            let base = first_or(base, kept_base);
            if text::char_count(base.as_str()) == 0 {
                return Err(
                    text::concat3(
                        "pi-ai ships no catalog for provider \"",
                        id.as_str(),
                        "\", so its models can only come from its endpoint; set a baseURL, or enter this provider's models by hand",
                    ),
                );
            }
            Ok(FetchRequest { base, key: key_or_none(first_or(key, kept_key)), api })
        },
    }
}

/// Whether a provider can be asked: one that is being declared needs an
/// address.
pub fn fetch_askable(target: &FetchTarget, base: &str) -> (r: bool)
    ensures
        r == (match target {
            FetchTarget::Declare => text::trimmed(base@).len() > 0,
            FetchTarget::Edit(_) => true,
        }),
{
    match target {
        FetchTarget::Declare => !text::is_blank(base),
        FetchTarget::Edit(_) => true,
    }
}

// ---------------------------------------------------------------------------
// choosing
// ---------------------------------------------------------------------------

/// The models that a provider listed and the ones that are picked.
pub struct Picker {
    pub candidates: Vec<DiscoveredModel>,
    /// The ids of the picked ones, none of them twice.
    pub picked: Vec<String>,
}

/// The contents of a picker.
pub struct PickerView {
    pub candidates: Seq<ListedView>,
    pub picked: Seq<Seq<char>>,
}

impl DeepView for Picker {
    type V = PickerView;

    open spec fn deep_view(&self) -> PickerView {
        PickerView { candidates: self.candidates.deep_view(), picked: self.picked.deep_view() }
    }
}

/// The ids that are not known yet, each once.
pub open spec fn new_ids(models: Seq<ListedView>, known: Seq<Seq<char>>) -> Seq<Seq<char>>
    decreases models.len(),
{
    if models.len() == 0 {
        Seq::empty()
    } else {
        let head = new_ids(models.drop_last(), known);
        let id = models.last().id;
        if known.contains(id) || head.contains(id) {
            head
        } else {
            head.push(id)
        }
    }
}

/// What came of asking.
pub enum FetchOutcome {
    Failed(String),
    Listed(Picker),
}

fn pick_new(models: &Vec<DiscoveredModel>, known: &Vec<String>) -> (r: Vec<String>)
    ensures
        r.deep_view() == new_ids(models.deep_view(), known.deep_view()),
{
    let ghost view = models.deep_view();
    let ghost old_ids = known.deep_view();
    let mut out: Vec<String> = Vec::new();
    let mut i: usize = 0;
    assert(out.deep_view() =~= new_ids(view.take(0), old_ids));
    while i < models.len()
        invariant
            i <= models@.len(),
            view == models.deep_view(),
            old_ids == known.deep_view(),
            out.deep_view() == new_ids(view.take(i as int), old_ids),
        decreases models@.len() - i,
    {
        assert(view.take(i + 1).drop_last() =~= view.take(i as int));
        assert(view.take(i + 1).last() == models@[i as int].deep_view());
        let id: &str = models[i].id.as_str();
        if !roster::among(known, id) && !roster::among(&out, id) {
            let ghost before = out.deep_view();
            out.push(models[i].id.clone());
            assert(out.deep_view() =~= before.push(models@[i as int].id@));
        }
        i += 1;
    }
    assert(view.take(i as int) =~= view);
    out
}

/// What comes of the answer of a provider: its words where it failed, a word of
/// ours where it listed nothing, else the list with all picked that are not
/// known yet.
pub fn fetch_outcome(answer: Result<Vec<DiscoveredModel>, String>, known: &Vec<String>) -> (r:
    FetchOutcome)
    ensures
        match answer {
            Err(e) => r matches FetchOutcome::Failed(m) && m@ == e@,
            Ok(models) => if models@.len() == 0 {
                r matches FetchOutcome::Failed(m) && m@
                    == "该提供方没有列出任何模型，请手动添加。"@
            } else {
                r matches FetchOutcome::Listed(p) && p.deep_view() == (PickerView {
                    candidates: models.deep_view(),
                    picked: new_ids(models.deep_view(), known.deep_view()),
                })
            },
        },
{
    match answer {
        Err(e) => FetchOutcome::Failed(e),
        Ok(models) => {
            if models.len() == 0 {
                FetchOutcome::Failed("该提供方没有列出任何模型，请手动添加。".to_string())
            } else {
                let picked = pick_new(&models, known);
                FetchOutcome::Listed(Picker { candidates: models, picked })
            }
        },
    }
}

/// Whether a listed model is shown for a search.
pub open spec fn shown(m: ListedView, query: Seq<char>) -> bool {
    query.len() == 0 || text::holds_text(text::lowercased(m.id), query) || text::holds_text(
        text::lowercased(m.name),
        query,
    )
}

/// The places of the first `n` models that are shown.
pub open spec fn shown_places(models: Seq<ListedView>, query: Seq<char>, n: int) -> Seq<int>
    decreases n,
{
    if n <= 0 {
        Seq::empty()
    } else if shown(models[n - 1], query) {
        shown_places(models, query, n - 1).push(n - 1)
    } else {
        shown_places(models, query, n - 1)
    }
}

/// The ids with those at the given places added, none twice.
pub open spec fn with_places(
    ids: Seq<Seq<char>>,
    models: Seq<ListedView>,
    at: Seq<int>,
) -> Seq<Seq<char>>
    decreases at.len(),
{
    if at.len() == 0 {
        ids
    } else {
        let head = with_places(ids, models, at.drop_last());
        let id = models[at.last()].id;
        if head.contains(id) {
            head
        } else {
            head.push(id)
        }
    }
}

/// The picked ids after one was picked or dropped.
pub open spec fn toggled(picked: Seq<Seq<char>>, id: Seq<char>) -> Seq<Seq<char>> {
    if picked.contains(id) {
        roster::without_id(picked, id)
    } else {
        picked.push(id)
    }
}

/// Whether all of the given places are picked, and there are any.
pub open spec fn all_picked(p: PickerView, at: Seq<int>) -> bool {
    at.len() > 0 && forall|k: int|
        0 <= k < at.len() ==> p.picked.contains(p.candidates[#[trigger] at[k]].id)
}

/// The picked ids after all shown models were picked, or all dropped where all
/// shown ones were picked.
pub open spec fn shown_toggled(p: PickerView, query: Seq<char>) -> Seq<Seq<char>> {
    let at = shown_places(p.candidates, query, p.candidates.len() as int);
    if all_picked(p, at) {
        Seq::empty()
    } else {
        with_places(p.picked, p.candidates, at)
    }
}

impl Picker {
    /// The places of the models that are shown for what was typed.
    pub fn visible(&self, typed: &str) -> (r: Vec<usize>)
        ensures
            crate::rows::places(r@) == shown_places(
                self.candidates.deep_view(),
                text::lowercased(text::trimmed(typed@)),
                self.candidates@.len() as int,
            ),
            forall|k: int| 0 <= k < r@.len() ==> (#[trigger] r@[k]) < self.candidates@.len(),
    {
        let asked: String = ledger::search_query(typed);
        let query: &str = asked.as_str();
        let ghost view = self.candidates.deep_view();
        let mut out: Vec<usize> = Vec::new();
        let mut i: usize = 0;
        assert(crate::rows::places(out@) =~= Seq::empty());
        while i < self.candidates.len()
            invariant
                i <= self.candidates@.len(),
                view == self.candidates.deep_view(),
                crate::rows::places(out@) == shown_places(view, query@, i as int),
                forall|k: int| 0 <= k < out@.len() ==> (#[trigger] out@[k]) < i,
            decreases self.candidates@.len() - i,
        {
            assert(view[i as int] == self.candidates@[i as int].deep_view());
            let m: &DiscoveredModel = &self.candidates[i];
            let keep = if text::char_count(query) == 0 {
                true
            } else {
                let id = text::lower_case(m.id.as_str());
                let name = text::lower_case(m.name.as_str());
                text::contains_text(id.as_str(), query) || text::contains_text(
                    name.as_str(),
                    query,
                )
            };
            if keep {
                let ghost before = out@;
                out.push(i);
                assert(crate::rows::places(out@) =~= crate::rows::places(before).push(i as int));
            }
            i += 1;
        }
        out
    }

    /// Picks or drops a model.
    pub fn toggle(&mut self, id: &str)
        ensures
            final(self).picked.deep_view() == toggled(old(self).picked.deep_view(), id@),
            final(self).candidates == old(self).candidates,
    {
        if roster::among(&self.picked, id) {
            self.picked = roster::remove_id(&self.picked, id);
        } else {
            let ghost before = self.picked.deep_view();
            self.picked.push(id.to_string());
            assert(self.picked.deep_view() =~= before.push(id@));
        }
    }

    /// Picks all shown models, or drops all where all shown ones are picked.
    pub fn toggle_visible(&mut self, typed: &str)
        ensures
            final(self).picked.deep_view() == shown_toggled(
                old(self).deep_view(),
                text::lowercased(text::trimmed(typed@)),
            ),
            final(self).candidates == old(self).candidates,
    {
        let at = self.visible(typed);
        let ghost places = crate::rows::places(at@);
        let ghost view = self.candidates.deep_view();
        let ghost start = self.picked.deep_view();
        let mut all = at.len() > 0;
        let mut i: usize = 0;
        while i < at.len()
            invariant
                i <= at@.len(),
                places == crate::rows::places(at@),
                view == self.candidates.deep_view(),
                start == self.picked.deep_view(),
                self.candidates == old(self).candidates,
                self.picked == old(self).picked,
                forall|k: int|
                    0 <= k < at@.len() ==> (#[trigger] at@[k]) < self.candidates@.len(),
                all == (at@.len() > 0 && forall|k: int|
                    0 <= k < i ==> start.contains(view[#[trigger] places[k]].id)),
            decreases at@.len() - i,
        {
            assert(places[i as int] == at@[i as int]);
            assert(view[at@[i as int] as int] == self.candidates@[at@[i as int] as int].deep_view());
            let here = roster::among(&self.picked, self.candidates[at[i]].id.as_str());
            all = all && here;
            i += 1;
        }
        if all {
            self.picked = Vec::new();
            assert(self.picked.deep_view() =~= Seq::empty());
            return ;
        }
        let mut j: usize = 0;
        assert(with_places(start, view, places.take(0)) =~= start);
        while j < at.len()
            invariant
                j <= at@.len(),
                places == crate::rows::places(at@),
                view == self.candidates.deep_view(),
                self.candidates == old(self).candidates,
                forall|k: int|
                    0 <= k < at@.len() ==> (#[trigger] at@[k]) < self.candidates@.len(),
                self.picked.deep_view() == with_places(start, view, places.take(j as int)),
            decreases at@.len() - j,
        {
            assert(places.take(j + 1).drop_last() =~= places.take(j as int));
            assert(places.take(j + 1).last() == at@[j as int]);
            assert(view[at@[j as int] as int] == self.candidates@[at@[j as int] as int].deep_view());
            let id: String = self.candidates[at[j]].id.clone();
            if !roster::among(&self.picked, id.as_str()) {
                let ghost before = self.picked.deep_view();
                self.picked.push(id);
                assert(self.picked.deep_view() =~= before.push(id@));
            }
            j += 1;
        }
        assert(places.take(j as int) =~= places);
    }
}

// ---------------------------------------------------------------------------
// taking over
// ---------------------------------------------------------------------------

/// The names with those of the first `n` models that are picked, none twice.
pub open spec fn names_taken(
    names: Seq<Seq<char>>,
    p: PickerView,
    n: int,
) -> Seq<Seq<char>>
    decreases n,
{
    if n <= 0 {
        names
    } else {
        let head = names_taken(names, p, n - 1);
        let id = p.candidates[n - 1].id;
        if p.picked.contains(id) && !head.contains(id) {
            head.push(id)
        } else {
            head
        }
    }
}

/// The capacity of a model in words, where it is known.
pub open spec fn capacity(n: Option<u64>) -> Seq<char> {
    match n {
        Some(n) => usage::capacity_of(n as nat),
        None => Seq::empty(),
    }
}

/// A listed model as one of a provider.
pub open spec fn as_model(m: ListedView) -> ModelView {
    ModelView {
        id: m.id,
        display_name: m.name,
        context_window: capacity(m.context_window),
        max_tokens: capacity(m.max_tokens),
    }
}

/// The models with the picked ones of the first `n` that are not among them.
pub open spec fn models_taken(models: Seq<ModelView>, p: PickerView, n: int) -> Seq<ModelView>
    decreases n,
{
    if n <= 0 {
        models
    } else {
        let head = models_taken(models, p, n - 1);
        let m = p.candidates[n - 1];
        if p.picked.contains(m.id) && !providers::offers(head, m.id) {
            head.push(as_model(m))
        } else {
            head
        }
    }
}

fn capacity_text(n: Option<u64>) -> (r: String)
    ensures
        r@ == capacity(n),
{
    match n {
        Some(n) => usage::fmt_capacity(n),
        None => String::new(),
    }
}

impl Picker {
    /// Takes the picked models over into the names of a provider that is being
    /// declared.
    pub fn adopt_names(&self, names: &mut Vec<String>)
        ensures
            final(names).deep_view() == names_taken(
                old(names).deep_view(),
                self.deep_view(),
                self.candidates@.len() as int,
            ),
    {
        let ghost start = names.deep_view();
        let ghost p = self.deep_view();
        let mut i: usize = 0;
        while i < self.candidates.len()
            invariant
                i <= self.candidates@.len(),
                p == self.deep_view(),
                names.deep_view() == names_taken(start, p, i as int),
            decreases self.candidates@.len() - i,
        {
            assert(p.candidates[i as int] == self.candidates@[i as int].deep_view());
            let id: &str = self.candidates[i].id.as_str();
            if roster::among(&self.picked, id) && !roster::among(names, id) {
                let ghost before = names.deep_view();
                names.push(self.candidates[i].id.clone());
                assert(names.deep_view() =~= before.push(self.candidates@[i as int].id@));
            }
            i += 1;
        }
    }

    /// Takes the picked models over into those of a provider; a model that is
    /// there already stays as it is.
    pub fn adopt_models(&self, models: &mut Vec<CustomModel>)
        ensures
            final(models).deep_view() == models_taken(
                old(models).deep_view(),
                self.deep_view(),
                self.candidates@.len() as int,
            ),
    {
        let ghost start = models.deep_view();
        let ghost p = self.deep_view();
        let mut i: usize = 0;
        while i < self.candidates.len()
            invariant
                i <= self.candidates@.len(),
                p == self.deep_view(),
                models.deep_view() == models_taken(start, p, i as int),
            decreases self.candidates@.len() - i,
        {
            assert(p.candidates[i as int] == self.candidates@[i as int].deep_view());
            let m: &DiscoveredModel = &self.candidates[i];
            if roster::among(&self.picked, m.id.as_str()) && !providers::has_model(
                models,
                m.id.as_str(),
            ) {
                let ghost before = models.deep_view();
                let row = CustomModel {
                    id: m.id.clone(),
                    display_name: m.name.clone(),
                    context_window: capacity_text(m.context_window),
                    max_tokens: capacity_text(m.max_tokens),
                };
                models.push(row);
                assert(models.deep_view() =~= before.push(row.deep_view()));
            }
            i += 1;
        }
    }
}

// ---------------------------------------------------------------------------
// laws
// ---------------------------------------------------------------------------

/// Taking models over keeps every model that was there, as it was.
pub proof fn adopting_keeps_models(models: Seq<ModelView>, p: PickerView, n: int, i: int)
    requires
        0 <= i < models.len(),
    ensures
        i < models_taken(models, p, n).len(),
        models_taken(models, p, n)[i] == models[i],
    decreases n,
{
    if n > 0 {
        adopting_keeps_models(models, p, n - 1, i);
    }
}

/// Every picked model is there after it was taken over.
pub proof fn picked_models_are_adopted(models: Seq<ModelView>, p: PickerView, n: int, i: int)
    requires
        0 <= i < n,
        p.picked.contains(p.candidates[i].id),
    ensures
        providers::offers(models_taken(models, p, n), p.candidates[i].id),
    decreases n,
{
    let id = p.candidates[i].id;
    let head = models_taken(models, p, n - 1);
    let all = models_taken(models, p, n);
    if i < n - 1 {
        picked_models_are_adopted(models, p, n - 1, i);
        let k = choose|k: int| 0 <= k < head.len() && (#[trigger] head[k]).id == id;
        assert(all[k].id == id);
    } else if !providers::offers(head, id) {
        assert(all[all.len() - 1].id == id);
    }
}

// ---------------------------------------------------------------------------
// laws of finding models
// ---------------------------------------------------------------------------

/// What is typed counts, without the blanks around it; where nothing is, what
/// is stored does.
pub proof fn typed_address_and_key_count(
    stored: ProviderView,
    id: Seq<char>,
    base: Seq<char>,
    key: Seq<char>,
)
    ensures
        text::trimmed(base).len() > 0 ==> (edit_request(Some(stored), id, base, key) matches Some(q)
            && q.base == text::trimmed(base)),
        text::trimmed(base).len() == 0 && stored.base_url.len() > 0 ==> (edit_request(
            Some(stored),
            id,
            base,
            key,
        ) matches Some(q) && q.base == stored.base_url),
        text::trimmed(base).len() == 0 && stored.base_url.len() == 0 ==> (match (
            edit_request(Some(stored), id, base, key),
            providers::catalog_address(id),
        ) {
            (Some(q), Some(a)) => a.len() > 0 && q.base == a,
            (None, Some(a)) => a.len() == 0,
            (Some(_), None) => false,
            (None, None) => true,
        }),
        edit_request(Some(stored), id, base, key) matches Some(q) ==> {
            &&& q.api == Some(stored.protocol)
            &&& text::trimmed(key).len() > 0 ==> q.key == Some(text::trimmed(key))
            &&& text::trimmed(key).len() == 0 && stored.api_key.len() > 0 ==> q.key == Some(
                stored.api_key,
            )
            &&& text::trimmed(key).len() == 0 && stored.api_key.len() == 0 ==> q.key is None
        },
        declare_request(base, key).base == text::trimmed(base),
        text::trimmed(key).len() > 0 ==> declare_request(base, key).key == Some(text::trimmed(key)),
        text::trimmed(key).len() == 0 ==> declare_request(base, key).key is None,
        declare_request(base, key).api == Some("openai"@),
        text::holds_text(no_address(id), id),
{
    let n = "pi-ai ships no catalog for provider \""@.len() as int;
    assert(no_address(id).subrange(n, n + id.len()) =~= id);
    assert(text::stands_at(no_address(id), id, n));
}

/// Picked at first are the ids that are not known yet, each once.
pub proof fn new_models_are_picked(models: Seq<ListedView>, known: Seq<Seq<char>>, id: Seq<char>)
    ensures
        new_ids(models, known).contains(id) <==> lists(models, id) && !known.contains(id),
        new_ids(models, known).no_duplicates(),
    decreases models.len(),
{
    if models.len() > 0 {
        let head = models.drop_last();
        let rest = new_ids(head, known);
        let all = new_ids(models, known);
        let last = models.last().id;
        new_models_are_picked(head, known, id);
        new_models_are_picked(head, known, last);
        lemma_lists_push(models, id);
        if !(known.contains(last) || rest.contains(last)) {
            lemma_contains_push(rest, last, id);
            assert forall|i: int, j: int| 0 <= i < all.len() && 0 <= j < all.len() && i
                != j implies all[i] != all[j] by {
                if i < rest.len() && j < rest.len() {
                    assert(rest[i] != rest[j]);
                } else if i < rest.len() {
                    assert(rest.contains(rest[i]));
                } else {
                    assert(rest.contains(rest[j]));
                }
            }
        }
    }
}

/// Whether a model with this id is listed.
pub open spec fn lists(models: Seq<ListedView>, id: Seq<char>) -> bool {
    exists|i: int| 0 <= i < models.len() && (#[trigger] models[i]).id == id
}

proof fn lemma_lists_push(models: Seq<ListedView>, id: Seq<char>)
    requires
        models.len() > 0,
    ensures
        lists(models, id) <==> lists(models.drop_last(), id) || models.last().id == id,
{
    let head = models.drop_last();
    if lists(models, id) {
        let i = choose|i: int| 0 <= i < models.len() && (#[trigger] models[i]).id == id;
        if i < head.len() {
            assert(head[i].id == id);
        }
    }
    if lists(head, id) {
        let i = choose|i: int| 0 <= i < head.len() && (#[trigger] head[i]).id == id;
        assert(models[i].id == id);
    }
    if models.last().id == id {
        assert(models[models.len() - 1].id == id);
    }
}

proof fn lemma_contains_push(s: Seq<Seq<char>>, x: Seq<char>, y: Seq<char>)
    ensures
        s.push(x).contains(y) <==> s.contains(y) || x == y,
{
    let t = s.push(x);
    if s.contains(y) {
        let i = choose|i: int| 0 <= i < s.len() && s[i] == y;
        assert(t[i] == y);
    }
    assert(t[s.len() as int] == x);
    if t.contains(y) {
        let i = choose|i: int| 0 <= i < t.len() && t[i] == y;
        if i < s.len() {
            assert(s[i] == y);
        }
    }
}

/// The models that are shown are those whose id or name holds what is asked
/// for, in their order; with nothing asked for, all of them.
pub proof fn query_shows_what_holds_it(models: Seq<ListedView>, query: Seq<char>, n: int, i: int)
    requires
        0 <= n <= models.len(),
    ensures
        shown_places(models, query, n).contains(i) <==> 0 <= i < n && (query.len() == 0
            || text::holds_text(text::lowercased(models[i].id), query) || text::holds_text(
            text::lowercased(models[i].name),
            query,
        )),
        forall|a: int, b: int|
            0 <= a < b < shown_places(models, query, n).len() ==> shown_places(models, query, n)[a]
                < shown_places(models, query, n)[b],
        forall|a: int|
            0 <= a < shown_places(models, query, n).len() ==> 0 <= #[trigger] shown_places(
                models,
                query,
                n,
            )[a] < n,
    decreases n,
{
    if n > 0 {
        query_shows_what_holds_it(models, query, n - 1, i);
        let rest = shown_places(models, query, n - 1);
        let all = shown_places(models, query, n);
        if shown(models[n - 1], query) {
            assert(all[rest.len() as int] == n - 1);
            if rest.contains(i) {
                let k = choose|k: int| 0 <= k < rest.len() && rest[k] == i;
                assert(all[k] == i);
            }
            if all.contains(i) {
                let k = choose|k: int| 0 <= k < all.len() && all[k] == i;
                if k < rest.len() {
                    assert(rest[k] == i);
                }
            }
        }
    }
}

/// A pick is put in or taken out, and no other changes.
pub proof fn toggle_flips_one_pick(picked: Seq<Seq<char>>, id: Seq<char>, other: Seq<char>)
    ensures
        toggled(picked, id).contains(id) <==> !picked.contains(id),
        other != id ==> (toggled(picked, id).contains(other) <==> picked.contains(other)),
{
    if picked.contains(id) {
        roster::taking_out_keeps_the_others(picked, id, id);
        roster::taking_out_keeps_the_others(picked, id, other);
    } else {
        lemma_contains_push(picked, id, id);
        lemma_contains_push(picked, id, other);
    }
}

/// Toggling what is shown picks all of it beside what was picked; only where
/// all of it was picked already, nothing stays.
pub proof fn toggle_picks_all_that_is_shown(p: PickerView, query: Seq<char>, i: int, id: Seq<char>)
    requires
        0 <= i < p.candidates.len(),
        shown(p.candidates[i], query),
    ensures
        shown_toggled(p, query).len() == 0 || shown_toggled(p, query).contains(p.candidates[i].id),
        !p.picked.contains(p.candidates[i].id) ==> shown_toggled(p, query).contains(
            p.candidates[i].id,
        ),
        !p.picked.contains(p.candidates[i].id) && p.picked.contains(id) ==> shown_toggled(
            p,
            query,
        ).contains(id),
{
    let at = shown_places(p.candidates, query, p.candidates.len() as int);
    query_shows_what_holds_it(p.candidates, query, p.candidates.len() as int, i);
    assert(at.contains(i));
    let k = choose|k: int| 0 <= k < at.len() && at[k] == i;
    assert(p.candidates[at[k]].id == p.candidates[i].id);
    lemma_with_places(p.picked, p.candidates, at, k, id);
}

proof fn lemma_with_places(
    ids: Seq<Seq<char>>,
    models: Seq<ListedView>,
    at: Seq<int>,
    k: int,
    id: Seq<char>,
)
    requires
        0 <= k < at.len(),
    ensures
        with_places(ids, models, at).contains(models[at[k]].id),
        ids.contains(id) ==> with_places(ids, models, at).contains(id),
    decreases at.len(),
{
    let head = at.drop_last();
    let rest = with_places(ids, models, head);
    let last = models[at.last()].id;
    if head.len() > 0 {
        lemma_with_places(
            ids,
            models,
            head,
            if k < head.len() {
                k
            } else {
                0
            },
            id,
        );
    } else {
        assert(rest == ids);
    }
    lemma_contains_push(rest, last, id);
    lemma_contains_push(rest, last, last);
    lemma_contains_push(rest, last, models[at[k]].id);
}

/// Taking over the picked names adds exactly those behind the names there were.
pub proof fn picked_names_are_taken(names: Seq<Seq<char>>, p: PickerView, n: int, id: Seq<char>)
    requires
        0 <= n <= p.candidates.len(),
    ensures
        names_taken(names, p, n).contains(id) <==> names.contains(id) || (p.picked.contains(id)
            && lists(p.candidates.take(n), id)),
        names.is_prefix_of(names_taken(names, p, n)),
    decreases n,
{
    if n > 0 {
        let rest = names_taken(names, p, n - 1);
        let last = p.candidates[n - 1].id;
        picked_names_are_taken(names, p, n - 1, id);
        picked_names_are_taken(names, p, n - 1, last);
        assert(p.candidates.take(n).drop_last() =~= p.candidates.take(n - 1));
        lemma_lists_push(p.candidates.take(n), id);
        if p.picked.contains(last) && !rest.contains(last) {
            lemma_contains_push(rest, last, id);
            assert(names =~= names_taken(names, p, n).take(names.len() as int));
        }
    } else {
        assert(!lists(p.candidates.take(0), id));
        assert(names =~= names.take(names.len() as int));
    }
}

/// Every model that is taken over is one that was listed and picked, under its
/// own name and with its own sizes.
pub proof fn adopted_model_is_the_listed_one(models: Seq<ModelView>, p: PickerView, n: int, i: int)
    requires
        0 <= n <= p.candidates.len(),
        models.len() <= i < models_taken(models, p, n).len(),
    ensures
        exists|k: int|
            0 <= k < n && p.picked.contains(p.candidates[k].id) && #[trigger] comes_from(
                models_taken(models, p, n)[i],
                p.candidates[k],
            ),
    decreases n,
{
    let rest = models_taken(models, p, n - 1);
    if n > 0 {
        if i < rest.len() {
            adopted_model_is_the_listed_one(models, p, n - 1, i);
            let k = choose|k: int|
                0 <= k < n - 1 && p.picked.contains(p.candidates[k].id) && #[trigger] comes_from(
                    rest[i],
                    p.candidates[k],
                );
            assert(comes_from(models_taken(models, p, n)[i], p.candidates[k]));
        } else {
            assert(comes_from(models_taken(models, p, n)[i], p.candidates[n - 1]));
        }
    }
}

/// Whether a model has id, name and sizes of the listed one.
pub open spec fn comes_from(m: ModelView, l: ListedView) -> bool {
    &&& m.id == l.id
    &&& m.display_name == l.name
    &&& l.context_window matches Some(n) ==> m.context_window == usage::capacity_of(n as nat)
    &&& l.context_window is None ==> m.context_window.len() == 0
    &&& l.max_tokens matches Some(n) ==> m.max_tokens == usage::capacity_of(n as nat)
    &&& l.max_tokens is None ==> m.max_tokens.len() == 0
}

} // verus!
