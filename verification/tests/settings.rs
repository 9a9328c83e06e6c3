use dsh::discover::{
    fetch_askable, fetch_models, fetch_outcome, DiscoveredModel, FetchOutcome, FetchTarget, Picker,
};
use dsh::fold::TranscriptView;
use dsh::legacy::migrate_legacy;
use dsh::providers::{
    activate_provider, adopt_provider, catalog_base_url, catalog_entry, declare_provider,
    known_provider_base_url, push_model, register_address, remove_provider, route_text, save_edit,
    startup_route, valid_route_id, Declared, CATALOG_LEN,
};
use dsh::settings::{
    default_permission_preset, derive_key_ref, load_credentials, load_user_config,
    persist_user_config, save_credentials, set_default_permission_preset, AppSettings,
    AppearanceMode, CustomModel, CustomProvider, EnterBehavior,
};

fn model(id: &str) -> CustomModel {
    CustomModel {
        id: id.to_string(),
        display_name: String::new(),
        context_window: String::new(),
        max_tokens: String::new(),
    }
}

fn provider(id: &str, models: &[&str]) -> CustomProvider {
    CustomProvider {
        id: id.to_string(),
        name: id.to_string(),
        base_url: format!("https://{id}.example/v1"),
        api_key: format!("key-of-{id}"),
        protocol: "openai-completions".to_string(),
        models: models.iter().map(|m| model(m)).collect(),
    }
}

#[test]
fn settings_are_read_back() {
    let mut s = AppSettings::default();
    s.appearance = AppearanceMode::Dark;
    s.enter = EnterBehavior::Interrupt;
    s.transcript_view = TranscriptView::Normal;
    s.providers = vec![provider("acme", &["m1", "m2"])];
    s.providers[0].models[0].context_window = "128000".to_string();
    s.providers[0].models[0].display_name = "Model One".to_string();
    s.providers[0].name = "Acme: \"AI\"".to_string();
    let old = Some("locale: zh\nui-theme:\n  preference: light\n".to_string());
    let written = persist_user_config(&old, &None, &s, "acme", "m2", "deep-key", false);
    assert!(written.settings.as_ref().unwrap().contains("locale: zh"));
    let back = load_user_config(&written.settings, &written.credentials);
    assert_eq!(back.active, "acme");
    assert_eq!(back.deepseek_key, "deep-key");
    assert_eq!(back.settings.model, "m2");
    assert_eq!(back.settings.appearance, AppearanceMode::Dark);
    assert_eq!(back.settings.enter, EnterBehavior::Interrupt);
    assert_eq!(back.settings.transcript_view, TranscriptView::Normal);
    let p = &back.settings.providers[0];
    assert_eq!(p.id, "acme");
    assert_eq!(p.name, "Acme: \"AI\"");
    assert_eq!(p.base_url, "https://acme.example/v1");
    assert_eq!(p.api_key, "key-of-acme");
    assert_eq!(p.models.len(), 2);
    assert_eq!(p.models[0].display_name, "Model One");
    assert_eq!(p.models[0].context_window, "128000");
    assert_eq!(p.models[1].display_name, "m2");
}

#[test]
fn the_built_in_provider_has_another_name_on_disk() {
    let s = AppSettings::default();
    let written = persist_user_config(&None, &None, &s, "deepseek", "m", "", false);
    assert!(written.settings.as_ref().unwrap().contains("deepseek-official"));
    assert!(written.credentials.is_none());
    let back = load_user_config(&written.settings, &None);
    assert_eq!(back.active, "deepseek");
    assert_eq!(back.settings.model, "m");
}

#[test]
fn a_locked_key_is_not_written() {
    let s = AppSettings::default();
    let written = persist_user_config(&None, &None, &s, "deepseek", "m", "secret", true);
    assert!(written.credentials.is_none());
}

#[test]
fn broken_settings_fall_back_to_the_defaults() {
    let back = load_user_config(&Some(": [".to_string()), &Some("x".to_string()));
    assert_eq!(back.active, "deepseek");
    assert!(back.settings.providers.is_empty());
    assert_eq!(back.deepseek_key, "");
}

#[test]
fn keys_are_added_to_those_that_are_there() {
    let first = save_credentials(&None, &vec![("A".to_string(), "1".to_string())]);
    assert!(first.as_ref().unwrap().contains("version: 1"));
    let second = save_credentials(
        &first,
        &vec![("B".to_string(), "yes".to_string()), ("A".to_string(), "3".to_string())],
    );
    let mut keys = load_credentials(&second);
    keys.sort();
    assert_eq!(
        keys,
        vec![
            ("A".to_string(), "3".to_string()),
            ("B".to_string(), "yes".to_string()),
        ]
    );
    assert!(load_credentials(&None).is_empty());
}

#[test]
fn texts_of_one_line_are_read_back() {
    let texts = [
        "", " ", "plain", " led", "trailed ", "a: b", "a:", ": a", "a #b", "#a", "- a", "-", "-a",
        "? a", "?", "---", "--- a", "...", "[a]", "{a: b}", "a, b", "&a", "*a", "!a", "|", ">",
        "%a", "@a", "`a", "'a'", "it's", "\"a\"", "back\\slash", "~", "null", "true", "False",
        "12", "-3", "0x1F", "0o17", "007", "1.5", ".inf", ".nan", "1e3", "<<", "=", "https://a/b?c#d",
        "多言語", "é", "emoji 😀", "\u{a0}", "\u{e000}", "\u{fffd}", "a  b",
    ];
    let mut patch: Vec<(String, String)> = Vec::new();
    for (i, s) in texts.iter().enumerate() {
        patch.push((format!("K{i}"), s.to_string()));
        patch.push((s.to_string(), format!("value of {i}")));
    }
    patch.push(("k".repeat(127), "v".repeat(127)));
    patch.push(("l".repeat(200), "long name".to_string()));
    patch.push((format!("{} x", "m".repeat(2000)), "w ".repeat(2000)));
    let raw = save_credentials(&Some("on: true\nnone: null\nlist: []\n".to_string()), &patch);
    assert!(raw.as_ref().unwrap().contains("on: true"));
    let keys = load_credentials(&raw);
    for (name, value) in &patch {
        let got = keys.iter().find(|(n, _)| n == name).map(|(_, v)| v.as_str());
        assert_eq!(got, Some(value.as_str()), "{name}");
    }
    let again = save_credentials(&raw, &Vec::new());
    assert_eq!(again, raw);
}

#[test]
fn key_names_come_from_the_route() {
    assert_eq!(derive_key_ref("acme-gateway"), "ACME_GATEWAY_API_KEY");
    assert_eq!(derive_key_ref("a--b2-"), "A_B2_API_KEY");
}

#[test]
fn the_default_preset_is_kept() {
    assert_eq!(default_permission_preset(&None), "workspace-write");
    let raw = set_default_permission_preset(&Some("a: 1\n".to_string()), "read-only");
    assert_eq!(default_permission_preset(&raw), "read-only");
    assert!(raw.as_ref().unwrap().contains("a: 1"));
    let odd = set_default_permission_preset(&raw, "nonsense");
    assert_eq!(default_permission_preset(&odd), "workspace-write");
}

#[test]
fn old_settings_are_taken_over() {
    let raw = r#"{"appearance":"Dark","enter":"steer","model":"m","providers":[
        {"id":"","name":"none"},
        {"id":"acme","name":"Acme","base_url":"u","api_key":"k","models":[{"id":"x","context_window":"9"},{"name":"no id"}]}]}"#;
    let keys = vec![
        r#"{"deepseek":"d","acme":"newer"}"#.to_string(),
        "not json".to_string(),
    ];
    let (s, key) = migrate_legacy(raw, &keys).unwrap();
    assert_eq!(s.appearance, AppearanceMode::Dark);
    assert_eq!(s.enter, EnterBehavior::Interrupt);
    assert_eq!(s.model, "m");
    assert_eq!(s.providers.len(), 1);
    assert_eq!(s.providers[0].api_key, "newer");
    assert_eq!(s.providers[0].protocol, "openai-completions");
    assert_eq!(s.providers[0].models.len(), 1);
    assert_eq!(s.providers[0].models[0].context_window, "9");
    assert_eq!(key, "d");
    assert!(migrate_legacy("{", &keys).is_none());
}

#[test]
fn the_list_of_providers_is_complete() {
    assert_eq!(catalog_entry(0).id, "amazon-bedrock");
    assert_eq!(catalog_entry(CATALOG_LEN - 1).id, "zai");
    for i in 0..CATALOG_LEN {
        for j in 0..i {
            assert_ne!(catalog_entry(i).id, catalog_entry(j).id);
        }
    }
    assert_eq!(catalog_base_url("openai").as_deref(), Some("https://api.openai.com/v1"));
    assert_eq!(catalog_base_url("nope"), None);
    assert_eq!(
        known_provider_base_url("zai"),
        Some("https://api.z.ai/api/coding/paas/v4")
    );
    assert_eq!(known_provider_base_url("nope"), None);
}

#[test]
fn addresses_are_filled_in() {
    let mut p = provider("zai", &[]);
    assert_eq!(register_address(&p).as_deref(), Some("https://zai.example/v1"));
    p.base_url = String::new();
    assert_eq!(
        register_address(&p).as_deref(),
        Some("https://api.z.ai/api/coding/paas/v4")
    );
    p.id = "nope".to_string();
    assert_eq!(register_address(&p), None);
}

#[test]
fn route_ids_have_a_form() {
    for ok in ["a", "acme-gateway", "a1-2b"] {
        assert!(valid_route_id(ok), "{ok}");
    }
    for bad in ["", "1a", "A", "a--b", "a-", "-a", "a_b", "é"] {
        assert!(!valid_route_id(bad), "{bad}");
    }
}

#[test]
fn providers_are_adopted_once() {
    let mut list = Vec::new();
    let openai = (0..CATALOG_LEN).find(|i| catalog_entry(*i).id == "openai").unwrap();
    assert!(adopt_provider(&mut list, openai, " k ", "").is_ok());
    assert_eq!(list[0].api_key, "k");
    assert_eq!(list[0].base_url, "https://api.openai.com/v1");
    assert_eq!(list[0].models[0].id, "gpt-4o-mini");
    assert_eq!(
        adopt_provider(&mut list, openai, "k", "x"),
        Err("已有提供方使用了这个 ID。".to_string())
    );
    assert_eq!(list.len(), 1);
}

fn declared(route: &str) -> Declared {
    Declared {
        route: route.to_string(),
        base: "https://x/v1".to_string(),
        key: "k".to_string(),
        name: "N".to_string(),
        models: vec!["m".to_string()],
    }
}

#[test]
fn declared_providers_are_checked() {
    let mut list = Vec::new();
    assert!(declare_provider(&mut list, &declared("acme")).is_ok());
    assert_eq!(list.len(), 1);
    assert!(declare_provider(&mut list, &declared("acme")).is_err());
    assert!(declare_provider(&mut list, &declared("Bad Route")).is_err());
    let mut none = declared("other");
    none.models = Vec::new();
    assert!(declare_provider(&mut list, &none).is_err());
    let mut no_base = declared("third");
    no_base.base = " ".to_string();
    assert!(declare_provider(&mut list, &no_base).is_err());
    assert_eq!(list.len(), 1);
    let mut names = Vec::new();
    push_model(&mut names, " a ");
    push_model(&mut names, "a");
    push_model(&mut names, "  ");
    assert_eq!(names, vec!["a"]);
}

#[test]
fn removing_the_active_provider_falls_back() {
    let list = vec![provider("a", &["m"]), provider("b", &[])];
    let (left, active) = remove_provider(list.clone(), "a".to_string(), "a");
    assert_eq!(left.len(), 1);
    assert_eq!(active, "deepseek");
    let (left, active) = remove_provider(list.clone(), "a".to_string(), "b");
    assert_eq!((left.len(), active.as_str()), (1, "a"));
    assert_eq!(
        activate_provider(&list, "a", "old"),
        Some(("a".to_string(), "m".to_string()))
    );
    assert_eq!(route_text("p", "m"), "p/m");
    let mut p = provider("a", &[]);
    save_edit(&mut p, "new", "");
    assert_eq!(p.api_key, "new");
}

#[test]
fn the_kept_choice_decides_the_first_route() {
    let list = vec![provider("a", &["m1", "m2"])];
    let none: Option<String> = None;
    let pair = |p: &str, m: &str| (p.to_string(), m.to_string());
    assert_eq!(startup_route("a", "m2", &none, &list, true), pair("a", "m2"));
    assert_eq!(startup_route("a", "other", &none, &list, true), pair("a", "m1"));
    assert_eq!(startup_route("gone", "x", &none, &list, true), pair("deepseek", "x"));
    assert_eq!(startup_route("gone", "x", &none, &list, false), pair("a", "m1"));
    assert_eq!(startup_route("gone", "", &none, &Vec::new(), false), pair("mock", "deepseek-flash"));
    assert_eq!(
        startup_route("deepseek", "x", &Some("env".to_string()), &list, false),
        pair("deepseek", "env")
    );
}

fn found(id: &str) -> DiscoveredModel {
    DiscoveredModel {
        id: id.to_string(),
        name: format!("Name {id}"),
        context_window: Some(4096),
        max_tokens: None,
    }
}

#[test]
fn found_models_are_picked_and_adopted() {
    assert!(matches!(
        fetch_outcome(Err("gone".to_string()), &Vec::new()),
        FetchOutcome::Failed(_)
    ));
    let mut p = match fetch_outcome(Ok(vec![found("a"), found("b")]), &vec!["b".to_string()]) {
        FetchOutcome::Listed(p) => p,
        FetchOutcome::Failed(_) => panic!("a list was expected"),
    };
    assert_eq!(p.picked, vec!["a"]);
    p.toggle("a");
    assert!(p.picked.is_empty());
    p.toggle("a");
    let mut models = vec![model("b")];
    p.adopt_models(&mut models);
    assert!(models.iter().any(|m| m.id == "a" && m.context_window == "4096"));
    assert!(models.iter().any(|m| m.id == "b"));
    let mut names = vec!["b".to_string()];
    p.adopt_names(&mut names);
    assert!(names.contains(&"a".to_string()) && names.contains(&"b".to_string()));
}

#[test]
fn searching_narrows_what_is_picked() {
    let mut p = Picker { candidates: vec![found("Alpha"), found("beta")], picked: Vec::new() };
    assert_eq!(p.visible("ALP").len(), 1);
    assert_eq!(p.visible("").len(), 2);
    p.toggle_visible("alp");
    assert_eq!(p.picked, vec!["Alpha"]);
    p.toggle_visible("alp");
    assert!(p.picked.is_empty());
}

#[test]
fn fetching_needs_an_address() {
    assert!(!fetch_askable(&FetchTarget::Declare, " "));
    assert!(fetch_askable(&FetchTarget::Declare, "https://x"));
    let list = vec![provider("acme", &[])];
    let r = fetch_models(&FetchTarget::Edit("acme".to_string()), &list, "", "").unwrap();
    assert_eq!(r.base, "https://acme.example/v1");
    assert_eq!(r.key.as_deref(), Some("key-of-acme"));
}
