//! The providers of models: the built-in list, what the user adds to it, and
//! which provider and model are used.

use crate::settings::{CustomModel, CustomProvider, ModelView, ProviderView};
use crate::settings;
use crate::text;
use vstd::prelude::*;

verus! {

// ---------------------------------------------------------------------------
// the built-in list
// ---------------------------------------------------------------------------

/// A provider of the built-in list.
#[derive(Clone, Copy, Debug)]
pub struct ProviderCatalogEntry {
    pub id: &'static str,
    pub name: &'static str,
    pub base_url: &'static str,
    pub model: &'static str,
}

/// The contents of a provider of the built-in list.
pub struct EntryView {
    pub id: Seq<char>,
    pub name: Seq<char>,
    pub base_url: Seq<char>,
    pub model: Seq<char>,
}

impl DeepView for ProviderCatalogEntry {
    type V = EntryView;

    open spec fn deep_view(&self) -> EntryView {
        EntryView {
            id: self.id@,
            name: self.name@,
            base_url: self.base_url@,
            model: self.model@,
        }
    }
}

/// How many providers the built-in list has.
pub const CATALOG_LEN: usize = 34;

/// A provider of the built-in list from its texts.
pub open spec fn entry_view(id: &str, name: &str, base_url: &str, model: &str) -> EntryView {
    EntryView { id: id@, name: name@, base_url: base_url@, model: model@ }
}

fn entry(
    id: &'static str,
    name: &'static str,
    base_url: &'static str,
    model: &'static str,
) -> (r: ProviderCatalogEntry)
    ensures
        r.deep_view() == entry_view(id, name, base_url, model),
{
    ProviderCatalogEntry { id, name, base_url, model }
}

/// The provider at a place of the built-in list.
pub open spec fn catalog_view(i: int) -> EntryView {
    if i == 0 {
        entry_view("amazon-bedrock", "Amazon Bedrock", "", "")
    } else if i == 1 {
        entry_view("ant-ling", "Ant Ling", "", "")
    } else if i == 2 {
        entry_view("anthropic", "Anthropic", "https://api.anthropic.com/v1", "")
    } else if i == 3 {
        entry_view("azure-openai-responses", "Azure OpenAI", "", "")
    } else if i == 4 {
        entry_view("cerebras", "Cerebras", "", "")
    } else if i == 5 {
        entry_view("cloudflare-ai-gateway", "Cloudflare AI Gateway", "", "")
    } else if i == 6 {
        entry_view("cloudflare-workers-ai", "Cloudflare Workers AI", "", "")
    } else if i == 7 {
        entry_view("fireworks", "Fireworks", "", "")
    } else if i == 8 {
        entry_view("github-copilot", "GitHub Copilot", "", "")
    } else if i == 9 {
        entry_view("google", "Google", "https://generativelanguage.googleapis.com/v1beta/openai", "gemini-2.5-flash")
    } else if i == 10 {
        entry_view("google-vertex", "Google Vertex", "", "")
    } else if i == 11 {
        entry_view("groq", "Groq", "https://api.groq.com/openai/v1", "llama-3.3-70b-versatile")
    } else if i == 12 {
        entry_view("huggingface", "Hugging Face", "", "")
    } else if i == 13 {
        entry_view("kimi-coding", "Kimi Coding", "", "")
    } else if i == 14 {
        entry_view("minimax", "MiniMax", "https://api.minimax.chat/v1", "")
    } else if i == 15 {
        entry_view("minimax-cn", "MiniMax CN", "https://api.minimaxi.com/v1", "")
    } else if i == 16 {
        entry_view("mistral", "Mistral", "https://api.mistral.ai/v1", "mistral-large-latest")
    } else if i == 17 {
        entry_view("moonshotai", "Moonshot AI", "https://api.moonshot.ai/v1", "kimi-k2-0905-preview")
    } else if i == 18 {
        entry_view("moonshotai-cn", "Moonshot AI CN", "https://api.moonshot.cn/v1", "kimi-k2-0905-preview")
    } else if i == 19 {
        entry_view("nvidia", "NVIDIA", "", "")
    } else if i == 20 {
        entry_view("openai", "OpenAI", "https://api.openai.com/v1", "gpt-4o-mini")
    } else if i == 21 {
        entry_view("openai-codex", "OpenAI Codex", "", "")
    } else if i == 22 {
        entry_view("opencode", "OpenCode", "", "")
    } else if i == 23 {
        entry_view("opencode-go", "OpenCode Go", "", "")
    } else if i == 24 {
        entry_view("openrouter", "OpenRouter", "https://openrouter.ai/api/v1", "")
    } else if i == 25 {
        entry_view("qwen-token-plan", "Qwen Token Plan", "https://dashscope.aliyuncs.com/compatible-mode/v1", "")
    } else if i == 26 {
        entry_view("together", "Together", "https://api.together.xyz/v1", "")
    } else if i == 27 {
        entry_view("vercel-ai-gateway", "Vercel AI Gateway", "", "")
    } else if i == 28 {
        entry_view("xai", "xAI", "https://api.x.ai/v1", "grok-4")
    } else if i == 29 {
        entry_view("xiaomi", "Xiaomi", "", "")
    } else if i == 30 {
        entry_view("xiaomi-token-plan-ams", "Xiaomi Token Plan AMS", "", "")
    } else if i == 31 {
        entry_view("xiaomi-token-plan-cn", "Xiaomi Token Plan CN", "", "")
    } else if i == 32 {
        entry_view("xiaomi-token-plan-sgp", "Xiaomi Token Plan SGP", "", "")
    } else {
        entry_view("zai", "ZAI", "", "")
    }
}

/// The provider at a place of the built-in list.
pub fn catalog_entry(i: usize) -> (r: ProviderCatalogEntry)
    requires
        i < CATALOG_LEN,
    ensures
        r.deep_view() == catalog_view(i as int),
{
    match i {
        0 => entry("amazon-bedrock", "Amazon Bedrock", "", ""),
        1 => entry("ant-ling", "Ant Ling", "", ""),
        2 => entry("anthropic", "Anthropic", "https://api.anthropic.com/v1", ""),
        3 => entry("azure-openai-responses", "Azure OpenAI", "", ""),
        4 => entry("cerebras", "Cerebras", "", ""),
        5 => entry("cloudflare-ai-gateway", "Cloudflare AI Gateway", "", ""),
        6 => entry("cloudflare-workers-ai", "Cloudflare Workers AI", "", ""),
        7 => entry("fireworks", "Fireworks", "", ""),
        8 => entry("github-copilot", "GitHub Copilot", "", ""),
        9 => entry("google", "Google", "https://generativelanguage.googleapis.com/v1beta/openai", "gemini-2.5-flash"),
        10 => entry("google-vertex", "Google Vertex", "", ""),
        11 => entry("groq", "Groq", "https://api.groq.com/openai/v1", "llama-3.3-70b-versatile"),
        12 => entry("huggingface", "Hugging Face", "", ""),
        13 => entry("kimi-coding", "Kimi Coding", "", ""),
        14 => entry("minimax", "MiniMax", "https://api.minimax.chat/v1", ""),
        15 => entry("minimax-cn", "MiniMax CN", "https://api.minimaxi.com/v1", ""),
        16 => entry("mistral", "Mistral", "https://api.mistral.ai/v1", "mistral-large-latest"),
        17 => entry("moonshotai", "Moonshot AI", "https://api.moonshot.ai/v1", "kimi-k2-0905-preview"),
        18 => entry("moonshotai-cn", "Moonshot AI CN", "https://api.moonshot.cn/v1", "kimi-k2-0905-preview"),
        19 => entry("nvidia", "NVIDIA", "", ""),
        20 => entry("openai", "OpenAI", "https://api.openai.com/v1", "gpt-4o-mini"),
        21 => entry("openai-codex", "OpenAI Codex", "", ""),
        22 => entry("opencode", "OpenCode", "", ""),
        23 => entry("opencode-go", "OpenCode Go", "", ""),
        24 => entry("openrouter", "OpenRouter", "https://openrouter.ai/api/v1", ""),
        25 => entry("qwen-token-plan", "Qwen Token Plan", "https://dashscope.aliyuncs.com/compatible-mode/v1", ""),
        26 => entry("together", "Together", "https://api.together.xyz/v1", ""),
        27 => entry("vercel-ai-gateway", "Vercel AI Gateway", "", ""),
        28 => entry("xai", "xAI", "https://api.x.ai/v1", "grok-4"),
        29 => entry("xiaomi", "Xiaomi", "", ""),
        30 => entry("xiaomi-token-plan-ams", "Xiaomi Token Plan AMS", "", ""),
        31 => entry("xiaomi-token-plan-cn", "Xiaomi Token Plan CN", "", ""),
        32 => entry("xiaomi-token-plan-sgp", "Xiaomi Token Plan SGP", "", ""),
        _ => entry("zai", "ZAI", "", ""),
    }
}

/// The first place from `from` on of the built-in list with an id.
pub open spec fn catalog_place(id: Seq<char>, from: int) -> Option<int>
    decreases CATALOG_LEN - from,
{
    if from < 0 || from >= CATALOG_LEN {
        None
    } else if catalog_view(from).id == id {
        Some(from)
    } else {
        catalog_place(id, from + 1)
    }
}

/// The address of a provider of the built-in list, where it has one.
pub open spec fn catalog_address(id: Seq<char>) -> Option<Seq<char>> {
    match catalog_place(id, 0) {
        Some(i) => if catalog_view(i).base_url.len() > 0 {
            Some(catalog_view(i).base_url)
        } else {
            None
        },
        None => None,
    }
}

/// The address of a provider of the built-in list, where it has one.
pub fn catalog_base_url(id: &str) -> (r: Option<String>)
    ensures
        r.deep_view() == catalog_address(id@),
{
    let mut i: usize = 0;
    while i < CATALOG_LEN
        invariant
            i <= CATALOG_LEN,
            catalog_place(id@, 0) == catalog_place(id@, i as int),
        decreases CATALOG_LEN - i,
    {
        let e = catalog_entry(i);
        if text::same(e.id, id) {
            return if text::char_count(e.base_url) > 0 {
                Some(e.base_url.to_string())
            } else {
                None
            };
        }
        i += 1;
    }
    None
}

/// The address of a provider that is known without being written down.
pub open spec fn known_address(id: Seq<char>) -> Option<Seq<char>> {
    if id == "zai-coding-cn"@ {
        Some("https://open.bigmodel.cn/api/coding/paas/v4"@)
    } else if id == "zai"@ {
        Some("https://api.z.ai/api/coding/paas/v4"@)
    } else {
        None
    }
}

/// The address of a provider that is known without being written down.
pub fn known_provider_base_url(id: &str) -> (r: Option<&'static str>)
    ensures
        r.deep_view() == known_address(id@),
{
    if text::same(id, "zai-coding-cn") {
        Some("https://open.bigmodel.cn/api/coding/paas/v4")
    } else if text::same(id, "zai") {
        Some("https://api.z.ai/api/coding/paas/v4")
    } else {
        None
    }
}

/// The address to register a provider with: its own, else the known one;
/// nothing where it has none.
pub fn register_address(p: &CustomProvider) -> (r: Option<String>)
    ensures
        r.deep_view() == (if p.base_url@.len() > 0 {
            Some(p.base_url@)
        } else {
            known_address(p.id@)
        }),
{
    if text::char_count(p.base_url.as_str()) > 0 {
        Some(p.base_url.clone())
    } else {
        match known_provider_base_url(p.id.as_str()) {
            Some(s) => Some(s.to_string()),
            None => None,
        }
    }
}

// ---------------------------------------------------------------------------
// adding providers
// ---------------------------------------------------------------------------

/// Whether a character is a lower-case ASCII letter.
pub open spec fn is_lower(c: char) -> bool {
    97 <= c as u32 <= 122
}

/// Whether a part of a route id is made of lower-case letters and digits.
pub open spec fn route_part(s: Seq<char>) -> bool {
    &&& s.len() > 0
    &&& forall|i: int| 0 <= i < s.len() ==> is_lower(#[trigger] s[i]) || text::is_digit(s[i])
}

/// Whether a text can be the id of a route: it starts with a lower-case letter,
/// and hyphens part it into lower-case letters and digits.
pub open spec fn is_route_id(s: Seq<char>) -> bool {
    &&& s.len() > 0
    &&& is_lower(s[0])
    &&& forall|i: int|
        0 <= i < text::pieces(s, '-').len() ==> route_part(#[trigger] text::pieces(s, '-')[i])
}

fn is_route_part(s: &str) -> (r: bool)
    ensures
        r == route_part(s@),
{
    let v: Vec<char> = text::chars_of(s);
    if v.len() == 0 {
        return false;
    }
    let mut i: usize = 0;
    while i < v.len()
        invariant
            i <= v@.len(),
            v@ == s@,
            forall|j: int| 0 <= j < i ==> is_lower(#[trigger] s@[j]) || text::is_digit(s@[j]),
        decreases v@.len() - i,
    {
        let n: u32 = v[i] as u32;
        if !((97 <= n && n <= 122) || (48 <= n && n <= 57)) {
            assert(!(is_lower(s@[i as int]) || text::is_digit(s@[i as int])));
            return false;
        }
        i += 1;
    }
    true
}

/// Whether a text can be the id of a route.
pub fn valid_route_id(route: &str) -> (r: bool)
    ensures
        r == is_route_id(route@),
{
    let v: Vec<char> = text::chars_of(route);
    if v.len() == 0 {
        return false;
    }
    let first: u32 = v[0] as u32;
    if !(97 <= first && first <= 122) {
        return false;
    }
    let parts: Vec<String> = text::split(route, '-');
    let ghost view = text::pieces(route@, '-');
    let mut i: usize = 0;
    while i < parts.len()
        invariant
            i <= parts@.len(),
            parts.deep_view() == view,
            view == text::pieces(route@, '-'),
            forall|j: int| 0 <= j < i ==> route_part(#[trigger] view[j]),
        decreases parts@.len() - i,
    {
        assert(view[i as int] == parts@[i as int]@);
        if !is_route_part(parts[i].as_str()) {
            assert(!route_part(view[i as int]));
            return false;
        }
        i += 1;
    }
    true
}

/// A model that is known by its id alone.
pub open spec fn bare_model(id: Seq<char>) -> ModelView {
    ModelView {
        id,
        display_name: Seq::empty(),
        context_window: Seq::empty(),
        max_tokens: Seq::empty(),
    }
}

fn make_bare_model(id: String) -> (r: CustomModel)
    ensures
        r.deep_view() == bare_model(id@),
{
    CustomModel {
        id,
        display_name: String::new(),
        context_window: String::new(),
        max_tokens: String::new(),
    }
}

/// Whether an id is taken.
pub open spec fn id_taken(providers: Seq<ProviderView>, id: Seq<char>) -> bool {
    settings::provider_at(providers, id, 0) is Some || id == "deepseek"@
}

fn is_taken(providers: &Vec<CustomProvider>, id: &str) -> (r: bool)
    ensures
        r == id_taken(providers.deep_view(), id@),
{
    settings::find_provider(providers, id).is_some() || text::same(id, "deepseek")
}

/// The provider that is taken over from the built-in list: the picked one, with
/// the key and, where one was typed, the address that were typed.
pub open spec fn adopted(pick: int, key: Seq<char>, base: Seq<char>) -> ProviderView {
    let i = if pick < CATALOG_LEN {
        pick
    } else {
        CATALOG_LEN - 1
    };
    let e = catalog_view(i);
    ProviderView {
        id: e.id,
        name: e.name,
        base_url: if text::trimmed(base).len() > 0 {
            text::trimmed(base)
        } else {
            e.base_url
        },
        api_key: text::trimmed(key),
        protocol: "openai"@,
        models: seq![bare_model(e.model)],
    }
}

/// Takes a provider over from the built-in list; an error says that its id is
/// taken.
pub fn adopt_provider(
    providers: &mut Vec<CustomProvider>,
    pick: usize,
    key: &str,
    base: &str,
) -> (r: Result<(), String>)
    ensures
        ({
            let p = adopted(pick as int, key@, base@);
            if id_taken(old(providers).deep_view(), p.id) {
                &&& r matches Err(e) && e@ == "已有提供方使用了这个 ID。"@
                &&& final(providers).deep_view() == old(providers).deep_view()
            } else {
                &&& r is Ok
                &&& final(providers).deep_view() == old(providers).deep_view().push(p)
            }
        }),
{
    let i: usize = if pick < CATALOG_LEN {
        pick
    } else {
        CATALOG_LEN - 1
    };
    let e = catalog_entry(i);
    if is_taken(providers, e.id) {
        return Err("已有提供方使用了这个 ID。".to_string());
    }
    let typed = text::trim(base);
    let base_url = if text::char_count(typed.as_str()) > 0 {
        typed
    } else {
        e.base_url.to_string()
    };
    let mut models: Vec<CustomModel> = Vec::new();
    models.push(make_bare_model(e.model.to_string()));
    assert(models.deep_view() =~= seq![bare_model(e.model@)]);
    let p = CustomProvider {
        id: e.id.to_string(),
        name: e.name.to_string(),
        base_url,
        api_key: text::trim(key),
        protocol: "openai".to_string(),
        models,
    };
    let ghost before = providers.deep_view();
    providers.push(p);
    assert(providers.deep_view() =~= before.push(p.deep_view()));
    Ok(())
}

/// What the user typed for a provider of their own.
pub struct Declared {
    pub route: String,
    pub base: String,
    pub key: String,
    pub name: String,
    pub models: Vec<String>,
}

/// What is wrong with a declared provider, where something is.
pub open spec fn declare_error(providers: Seq<ProviderView>, d: Declared) -> Option<Seq<char>> {
    let route = text::trimmed(d.route@);
    if route.len() == 0 {
        Some("以小写字母开头的标识，在请求中唯一标识该提供方，并用于派生凭据名。"@)
    } else if !is_route_id(route) {
        Some("需以小写字母开头，之后可用小写字母、数字和短横线。"@)
    } else if id_taken(providers, route) {
        Some("已有提供方使用了这个 ID。"@)
    } else if text::trimmed(d.base@).len() == 0 {
        Some("自定义提供方需要填写 API 地址。"@)
    } else if d.models@.len() == 0 {
        Some("自定义提供方至少需要一个模型。"@)
    } else {
        None
    }
}

/// The provider that was declared.
pub open spec fn declared(d: Declared) -> ProviderView {
    ProviderView {
        id: text::trimmed(d.route@),
        name: text::trimmed(d.name@),
        base_url: text::trimmed(d.base@),
        api_key: text::trimmed(d.key@),
        protocol: "openai"@,
        models: d.models.deep_view().map_values(|id: Seq<char>| bare_model(id)),
    }
}

fn make_bare_models(ids: &Vec<String>) -> (r: Vec<CustomModel>)
    ensures
        r.deep_view() == ids.deep_view().map_values(|id: Seq<char>| bare_model(id)),
{
    let ghost all = ids.deep_view().map_values(|id: Seq<char>| bare_model(id));
    let mut out: Vec<CustomModel> = Vec::new();
    let mut i: usize = 0;
    assert(out.deep_view() =~= all.take(0));
    while i < ids.len()
        invariant
            i <= ids@.len(),
            all == ids.deep_view().map_values(|id: Seq<char>| bare_model(id)),
            out.deep_view() == all.take(i as int),
        decreases ids@.len() - i,
    {
        let ghost before = out.deep_view();
        let m = make_bare_model(ids[i].clone());
        out.push(m);
        assert(out.deep_view() =~= before.push(m.deep_view()));
        assert(ids.deep_view()[i as int] == ids@[i as int]@);
        assert(all.take(i + 1) =~= all.take(i as int).push(all[i as int]));
        i += 1;
    }
    assert(all.take(i as int) =~= all);
    out
}

/// Adds a provider of the user's own; an error says what is wrong with it.
pub fn declare_provider(providers: &mut Vec<CustomProvider>, d: &Declared) -> (r: Result<
    (),
    String,
>)
    ensures
        match declare_error(old(providers).deep_view(), *d) {
            Some(text) => {
                &&& r matches Err(e) && e@ == text
                &&& final(providers).deep_view() == old(providers).deep_view()
            },
            None => {
                &&& r is Ok
                &&& final(providers).deep_view() == old(providers).deep_view().push(declared(*d))
            },
        },
{
    let route = text::trim(d.route.as_str());
    let base = text::trim(d.base.as_str());
    if text::char_count(route.as_str()) == 0 {
        return Err(
            "以小写字母开头的标识，在请求中唯一标识该提供方，并用于派生凭据名。".to_string(),
        );
    }
    if !valid_route_id(route.as_str()) {
        return Err("需以小写字母开头，之后可用小写字母、数字和短横线。".to_string());
    }
    if is_taken(providers, route.as_str()) {
        return Err("已有提供方使用了这个 ID。".to_string());
    }
    if text::char_count(base.as_str()) == 0 {
        return Err("自定义提供方需要填写 API 地址。".to_string());
    }
    if d.models.len() == 0 {
        return Err("自定义提供方至少需要一个模型。".to_string());
    }
    let p = CustomProvider {
        id: route,
        name: text::trim(d.name.as_str()),
        base_url: base,
        api_key: text::trim(d.key.as_str()),
        protocol: "openai".to_string(),
        models: make_bare_models(&d.models),
    };
    let ghost before = providers.deep_view();
    providers.push(p);
    assert(providers.deep_view() =~= before.push(p.deep_view()));
    Ok(())
}

/// The names with one more, unless it is empty or among them.
pub open spec fn with_name(names: Seq<Seq<char>>, name: Seq<char>) -> Seq<Seq<char>> {
    if name.len() > 0 && !names.contains(name) {
        names.push(name)
    } else {
        names
    }
}

/// Adds the name of a model that was typed.
pub fn push_model(names: &mut Vec<String>, typed: &str)
    ensures
        final(names).deep_view() == with_name(old(names).deep_view(), text::trimmed(typed@)),
{
    let id = text::trim(typed);
    if text::char_count(id.as_str()) > 0 && !crate::roster::among(names, id.as_str()) {
        let ghost before = names.deep_view();
        names.push(id);
        assert(names.deep_view() =~= before.push(id@));
    }
}

/// The provider after an edit: what was typed takes the place of what was
/// there.
pub open spec fn edited(p: ProviderView, key: Seq<char>, base: Seq<char>) -> ProviderView {
    ProviderView {
        api_key: if text::trimmed(key).len() > 0 {
            text::trimmed(key)
        } else {
            p.api_key
        },
        base_url: if text::trimmed(base).len() > 0 {
            text::trimmed(base)
        } else {
            p.base_url
        },
        ..p
    }
}

/// Changes the key or the address of a provider. Says whether anything was
/// typed.
pub fn save_edit(p: &mut CustomProvider, key: &str, base: &str) -> (r: bool)
    ensures
        final(p).deep_view() == edited(old(p).deep_view(), key@, base@),
        r == (text::trimmed(key@).len() > 0 || text::trimmed(base@).len() > 0),
{
    let key = text::trim(key);
    let base = text::trim(base);
    let mut changed = false;
    if text::char_count(key.as_str()) > 0 {
        p.api_key = key;
        changed = true;
    }
    if text::char_count(base.as_str()) > 0 {
        p.base_url = base;
        changed = true;
    }
    changed
}

/// The providers without those of an id.
pub open spec fn without_provider(providers: Seq<ProviderView>, id: Seq<char>) -> Seq<ProviderView>
    decreases providers.len(),
{
    if providers.len() == 0 {
        Seq::empty()
    } else if providers.last().id == id {
        without_provider(providers.drop_last(), id)
    } else {
        without_provider(providers.drop_last(), id).push(providers.last())
    }
}

/// Removes a provider. Returns the provider that is used then: the built-in
/// one, where the removed one was.
pub fn remove_provider(providers: Vec<CustomProvider>, active: String, id: &str) -> (r: (
    Vec<CustomProvider>,
    String,
))
    ensures
        r.0.deep_view() == without_provider(providers.deep_view(), id@),
        r.1@ == (if active@ == id@ {
            "deepseek"@
        } else {
            active@
        }),
{
    let ghost view = providers.deep_view();
    let ghost raw = providers@;
    let mut out: Vec<CustomProvider> = Vec::new();
    assert(out.deep_view() =~= without_provider(view.take(0), id@));
    for p in it: providers
        invariant
            it.seq() == raw,
            view.len() == raw.len(),
            forall|i: int| 0 <= i < raw.len() ==> view[i] == #[trigger] raw[i].deep_view(),
            out.deep_view() == without_provider(view.take(it.index() as int), id@),
    {
        let ghost k = it.index() as int;
        assert(view.take(k + 1).drop_last() =~= view.take(k));
        assert(view.take(k + 1).last() == p.deep_view());
        if !text::same(p.id.as_str(), id) {
            let ghost before = out.deep_view();
            out.push(p);
            assert(out.deep_view() =~= before.push(p.deep_view()));
        }
    }
    assert(view.take(view.len() as int) =~= view);
    let active = if text::same(active.as_str(), id) {
        "deepseek".to_string()
    } else {
        active
    };
    (out, active)
}

// ---------------------------------------------------------------------------
// the provider and model that are used
// ---------------------------------------------------------------------------

/// The provider and model after a provider was chosen, where it is known.
pub open spec fn chosen(
    providers: Seq<ProviderView>,
    id: Seq<char>,
    model: Seq<char>,
) -> Option<(Seq<char>, Seq<char>)> {
    if id == "deepseek"@ {
        Some((id, model))
    } else {
        match settings::provider_at(providers, id, 0) {
            Some(i) => Some((providers[i].id, settings::first_model(providers[i].models))),
            None => None,
        }
    }
}

/// The provider and model after a provider was chosen, where it is known: the
/// built-in provider keeps the model, another one uses its first.
pub fn activate_provider(providers: &Vec<CustomProvider>, id: &str, model: &str) -> (r: Option<
    (String, String),
>)
    ensures
        r.deep_view() == chosen(providers.deep_view(), id@, model@),
{
    if text::same(id, "deepseek") {
        return Some(("deepseek".to_string(), model.to_string()));
    }
    match settings::find_provider(providers, id) {
        Some(i) => {
            assert(providers.deep_view()[i as int] == providers@[i as int].deep_view());
            Some((providers[i].id.clone(), settings::first_model_id(&providers[i].models)))
        },
        None => None,
    }
}

/// The label of a provider and its model.
pub fn route_text(provider: &str, model: &str) -> (r: String)
    ensures
        r@ == provider@ + "/"@ + model@,
{
    text::concat3(provider, "/", model)
}

/// The model at the start: the one of the environment, else the one that was
/// kept, else the usual one.
pub open spec fn first_choice(env: Option<Seq<char>>, kept: Seq<char>) -> Seq<char> {
    match env {
        Some(m) if text::trimmed(m).len() > 0 => m,
        _ => if kept.len() > 0 {
            kept
        } else {
            "deepseek-flash"@
        },
    }
}

/// The provider at the start: the one that was kept where it is the built-in
/// one or known; else the built-in one where it has a key; else the first of
/// the user's; else the one that answers by itself.
pub open spec fn start_provider(
    active: Seq<char>,
    providers: Seq<ProviderView>,
    has_key: bool,
) -> Seq<char> {
    if active == "deepseek"@ {
        "deepseek"@
    } else if settings::provider_at(providers, active, 0) is Some {
        active
    } else if has_key {
        "deepseek"@
    } else if providers.len() == 0 {
        "mock"@
    } else {
        providers[0].id
    }
}

/// Whether a model is among others.
pub open spec fn offers(models: Seq<ModelView>, id: Seq<char>) -> bool {
    exists|i: int| 0 <= i < models.len() && (#[trigger] models[i]).id == id
}

/// The model at the start, of a provider: the wanted one, unless the provider
/// has others alone.
pub open spec fn start_model(
    provider: Seq<char>,
    providers: Seq<ProviderView>,
    wanted: Seq<char>,
) -> Seq<char> {
    if provider == "deepseek"@ || provider == "mock"@ {
        wanted
    } else {
        match settings::provider_at(providers, provider, 0) {
            Some(i) => if offers(providers[i].models, wanted) || providers[i].models.len() == 0 {
                wanted
            } else {
                providers[i].models[0].id
            },
            None => wanted,
        }
    }
}

/// Whether a model is among others.
pub fn has_model(models: &Vec<CustomModel>, id: &str) -> (r: bool)
    ensures
        r == offers(models.deep_view(), id@),
{
    let ghost view = models.deep_view();
    let mut i: usize = 0;
    while i < models.len()
        invariant
            i <= models@.len(),
            view == models.deep_view(),
            forall|j: int| 0 <= j < i ==> (#[trigger] view[j]).id != id@,
        decreases models@.len() - i,
    {
        assert(view[i as int] == models@[i as int].deep_view());
        if text::same(models[i].id.as_str(), id) {
            assert(view[i as int].id == id@);
            return true;
        }
        i += 1;
    }
    false
}

/// The provider and model at the start.
pub fn startup_route(
    active: &str,
    kept: &str,
    env_model: &Option<String>,
    providers: &Vec<CustomProvider>,
    has_key: bool,
) -> (r: (String, String))
    ensures
        ({
            let p = start_provider(active@, providers.deep_view(), has_key);
            let wanted = first_choice(env_model.deep_view(), kept@);
            &&& r.0@ == p
            &&& r.1@ == start_model(p, providers.deep_view(), wanted)
        }),
{
    let ghost view = providers.deep_view();
    assert(view.len() == providers@.len());
    let kept_or_usual = if text::char_count(kept) > 0 {
        kept.to_string()
    } else {
        "deepseek-flash".to_string()
    };
    let wanted = match env_model {
        Some(m) => if !text::is_blank(m.as_str()) {
            m.clone()
        } else {
            kept_or_usual
        },
        None => kept_or_usual,
    };
    let provider = if text::same(active, "deepseek") {
        "deepseek".to_string()
    } else if settings::find_provider(providers, active).is_some() {
        active.to_string()
    } else if has_key {
        "deepseek".to_string()
    } else if providers.len() == 0 {
        "mock".to_string()
    } else {
        assert(view[0] == providers@[0].deep_view());
        providers[0].id.clone()
    };
    let model = if text::same(provider.as_str(), "deepseek") || text::same(
        provider.as_str(),
        "mock",
    ) {
        wanted
    } else {
        match settings::find_provider(providers, provider.as_str()) {
            Some(i) => {
                assert(view[i as int] == providers@[i as int].deep_view());
                assert(view[i as int].models.len() == providers@[i as int].models@.len());
                if has_model(&providers[i].models, wanted.as_str()) || providers[i].models.len()
                    == 0 {
                    wanted
                } else {
                    assert(view[i as int].models[0] == providers@[i as int].models@[0].deep_view());
                    providers[i].models[0].id.clone()
                }
            },
            None => wanted,
        }
    };
    (provider, model)
}

// ---------------------------------------------------------------------------
// laws
// ---------------------------------------------------------------------------

/// A provider is found in the built-in list by its id, and its address is that
/// of its entry.
pub proof fn catalog_is_searched_by_id(id: Seq<char>, from: int)
    requires
        0 <= from <= CATALOG_LEN,
    ensures
        match catalog_place(id, from) {
            Some(i) => from <= i < CATALOG_LEN && catalog_view(i).id == id && forall|j: int|
                from <= j < i ==> (#[trigger] catalog_view(j)).id != id,
            None => forall|j: int| from <= j < CATALOG_LEN ==> (#[trigger] catalog_view(j)).id != id,
        },
    decreases CATALOG_LEN - from,
{
    if from < CATALOG_LEN && catalog_view(from).id != id {
        catalog_is_searched_by_id(id, from + 1);
    }
}

/// A provider of the list is known by the address of its entry, where the entry
/// has one.
pub proof fn catalog_gives_the_address(i: int)
    requires
        0 <= i < CATALOG_LEN,
        forall|j: int| 0 <= j < i ==> (#[trigger] catalog_view(j)).id != catalog_view(i).id,
    ensures
        catalog_view(i).base_url.len() > 0 ==> catalog_address(catalog_view(i).id) == Some(
            catalog_view(i).base_url,
        ),
        catalog_view(i).base_url.len() == 0 ==> catalog_address(catalog_view(i).id) is None,
{
    catalog_is_searched_by_id(catalog_view(i).id, 0);
}

/// A provider that is adopted from the list is that of its entry: its id, its
/// name and its model; its address is the one that was typed, else the entry's,
/// and its key the one that was typed.
pub proof fn adopted_provider_is_the_picked_one(pick: int, key: Seq<char>, base: Seq<char>)
    requires
        0 <= pick < CATALOG_LEN,
    ensures
        ({
            let p = adopted(pick, key, base);
            &&& p.id == catalog_view(pick).id
            &&& p.name == catalog_view(pick).name
            &&& p.api_key == text::trimmed(key)
            &&& text::trimmed(base).len() > 0 ==> p.base_url == text::trimmed(base)
            &&& text::trimmed(base).len() == 0 ==> p.base_url == catalog_view(pick).base_url
            &&& p.models.len() == 1
            &&& p.models[0].id == catalog_view(pick).model
        }),
{
}

/// A provider is declared exactly where nothing is missing or wrong: it has an
/// id of the right form that nobody uses, an address and a model. Then it is as
/// it was typed.
pub proof fn declared_provider_is_as_typed(
    providers: Seq<ProviderView>,
    d: Declared,
    i: int,
)
    ensures
        declare_error(providers, d) is None <==> is_route_id(text::trimmed(d.route@))
            && text::trimmed(d.route@) != "deepseek"@ && (forall|j: int|
            0 <= j < providers.len() ==> (#[trigger] providers[j]).id != text::trimmed(d.route@))
            && text::trimmed(d.base@).len() > 0 && d.models@.len() > 0,
        declared(d).id == text::trimmed(d.route@),
        declared(d).name == text::trimmed(d.name@),
        declared(d).base_url == text::trimmed(d.base@),
        declared(d).api_key == text::trimmed(d.key@),
        declared(d).models.len() == d.models@.len(),
        0 <= i < d.models@.len() ==> declared(d).models[i].id == d.models@[i]@,
{
    settings::provider_is_found_by_its_id(providers, text::trimmed(d.route@), 0);
}

/// An edit changes the key and the address that were typed and keeps the rest;
/// what was left blank stays.
pub proof fn edit_keeps_what_was_left_blank(p: ProviderView, key: Seq<char>, base: Seq<char>)
    ensures
        ({
            let r = edited(p, key, base);
            &&& r == ProviderView { api_key: r.api_key, base_url: r.base_url, ..p }
            &&& text::trimmed(key).len() > 0 ==> r.api_key == text::trimmed(key)
            &&& text::trimmed(key).len() == 0 ==> r.api_key == p.api_key
            &&& text::trimmed(base).len() > 0 ==> r.base_url == text::trimmed(base)
            &&& text::trimmed(base).len() == 0 ==> r.base_url == p.base_url
        }),
{
}

/// A removed provider is gone, and every other stays, in order.
pub proof fn removed_provider_is_gone(providers: Seq<ProviderView>, id: Seq<char>)
    ensures
        without_provider(providers, id) == providers.filter(|p: ProviderView| p.id != id),
    decreases providers.len(),
{
    reveal(Seq::filter);
    if providers.len() > 0 {
        removed_provider_is_gone(providers.drop_last(), id);
    }
}

/// Choosing a provider leads to it, with its first model; the built-in one
/// keeps the model at hand, and an unknown one cannot be chosen.
pub proof fn chosen_provider_is_used(
    providers: Seq<ProviderView>,
    id: Seq<char>,
    model: Seq<char>,
    i: int,
)
    ensures
        id == "deepseek"@ ==> chosen(providers, id, model) == Some((id, model)),
        id != "deepseek"@ && 0 <= i < providers.len() && providers[i].id == id && (forall|j: int|
            0 <= j < i ==> (#[trigger] providers[j]).id != id) && providers[i].models.len() > 0
            ==> chosen(providers, id, model) == Some((id, providers[i].models[0].id)),
        id != "deepseek"@ && (forall|j: int|
            0 <= j < providers.len() ==> (#[trigger] providers[j]).id != id) ==> chosen(
            providers,
            id,
            model,
        ) is None,
{
    settings::provider_is_found_by_its_id(providers, id, 0);
}

/// The program starts with the provider that was used last, where it is still
/// there; else with the built-in one where there is a key for it, else with the
/// first that is there.
pub proof fn start_uses_what_is_there(
    active: Seq<char>,
    providers: Seq<ProviderView>,
    has_key: bool,
    i: int,
)
    requires
        0 <= i < providers.len(),
    ensures
        active == providers[i].id ==> start_provider(active, providers, has_key) == active,
        active == "deepseek"@ ==> start_provider(active, providers, has_key) == "deepseek"@,
        active != "deepseek"@ && (forall|j: int|
            0 <= j < providers.len() ==> (#[trigger] providers[j]).id != active) ==> start_provider(
            active,
            providers,
            has_key,
        ) == (if has_key {
            "deepseek"@
        } else {
            providers[0].id
        }),
        start_provider(active, Seq::empty(), false) == "mock"@ || active == "deepseek"@,
{
    settings::provider_is_found_by_its_id(providers, active, 0);
    settings::provider_is_found_by_its_id(Seq::empty(), active, 0);
}

/// The program starts with the model that is wanted where the provider offers
/// it, else with the provider's first.
pub proof fn start_uses_a_model_on_offer(
    provider: Seq<char>,
    providers: Seq<ProviderView>,
    wanted: Seq<char>,
    i: int,
)
    requires
        0 <= i < providers.len(),
        providers[i].id == provider,
        forall|j: int| 0 <= j < i ==> (#[trigger] providers[j]).id != provider,
        provider != "deepseek"@,
        provider != "mock"@,
        providers[i].models.len() > 0,
    ensures
        ({
            let m = start_model(provider, providers, wanted);
            &&& exists|k: int|
                0 <= k < providers[i].models.len() && (#[trigger] providers[i].models[k]).id == m
            &&& (exists|k: int|
                0 <= k < providers[i].models.len() && (#[trigger] providers[i].models[k]).id
                    == wanted) ==> m == wanted
        }),
{
    settings::provider_is_found_by_its_id(providers, provider, 0);
    assert(providers[i].models[0].id == providers[i].models[0].id);
}

/// The model that is wanted is the one that the environment names, else the one
/// that was kept.
pub proof fn environment_names_the_model(env: Seq<char>, kept: Seq<char>)
    ensures
        text::trimmed(env).len() > 0 ==> first_choice(Some(env), kept) == env,
        text::trimmed(env).len() == 0 && kept.len() > 0 ==> first_choice(Some(env), kept) == kept,
        kept.len() > 0 ==> first_choice(None, kept) == kept,
        first_choice(None, Seq::empty()).len() > 0,
{
    reveal_strlit("deepseek-flash");
}

/// A model is listed once, and only where it has a name.
pub proof fn models_are_listed_once(names: Seq<Seq<char>>, name: Seq<char>)
    ensures
        name.len() > 0 ==> with_name(names, name).contains(name),
        names.contains(name) || name.len() == 0 ==> with_name(names, name) == names,
        with_name(names, name).len() <= names.len() + 1,
        forall|i: int| 0 <= i < names.len() ==> with_name(names, name)[i] == #[trigger] names[i],
{
    let r = with_name(names, name);
    if name.len() > 0 && !names.contains(name) {
        assert(r[r.len() - 1] == name);
    }
}

} // verus!
