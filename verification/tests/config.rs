use imageindex::config::{resolve_vision_config, VisionConfig, CONFIG_EXAMPLE};

fn config(endpoint: &str, model: &str, max_tokens: u32) -> VisionConfig {
    VisionConfig {
        provider: String::new(),
        endpoint: endpoint.to_string(),
        model: model.to_string(),
        api_key: String::new(),
        max_tokens,
    }
}

#[test]
fn example_configuration_is_read() {
    let c = VisionConfig::from_own_file(CONFIG_EXAMPLE);
    assert_eq!(c.provider, "openai-compatible");
    assert_eq!(c.endpoint, "https://api.deepseek.com/chat/completions");
    assert_eq!(c.model, "deepseek-v4-flash-vision-exp");
    assert_eq!(c.api_key, "sk-...");
    assert_eq!(c.max_tokens, 600);
    assert!(c.is_usable());
}

#[test]
fn lines_of_a_configuration() {
    let c = VisionConfig::from_own_file(
        "# model = commented\n  model=first\r\nmodel = last = one \n\nno equals sign\nmax_tokens = 12x\nendpoint =\n",
    );
    assert_eq!(c.model, "last = one");
    assert_eq!(c.endpoint, "");
    assert_eq!(c.max_tokens, 600);
    assert!(!c.is_usable());
    assert_eq!(VisionConfig::from_own_file("max_tokens=4294967295").max_tokens, u32::MAX);
    assert_eq!(VisionConfig::from_own_file("max_tokens=4294967296").max_tokens, 600);
    assert_eq!(VisionConfig::from_own_file("max_tokens=0").max_tokens, 0);
}

#[test]
fn legacy_configuration_uses_the_second_slot() {
    let c = VisionConfig::from_legacy_cs_aihelp(
        "endpoint=one\nendpoint2=two\nmodel2=m\napi_key2=k\nmax_tokens=5",
    );
    assert_eq!(c.provider, "openai-compatible");
    assert_eq!(c.endpoint, "two");
    assert_eq!(c.model, "m");
    assert_eq!(c.api_key, "k");
    assert_eq!(c.max_tokens, 600);
}

#[test]
fn environment_gives_what_is_set() {
    let c = VisionConfig::from_env(None, Some("e".into()), None, Some("k".into()), Some("+9".into()));
    assert_eq!(c.provider, "");
    assert_eq!(c.endpoint, "e");
    assert_eq!(c.model, "");
    assert_eq!(c.api_key, "k");
    assert_eq!(c.max_tokens, 9);
    let c = VisionConfig::from_env(None, None, None, None, Some("many".into()));
    assert_eq!(c.max_tokens, 0);
}

#[test]
fn first_source_wins() {
    let c = config("cli", "", 0).merged_over(config("env", "env", 5));
    assert_eq!(c.endpoint, "cli");
    assert_eq!(c.model, "env");
    assert_eq!(c.max_tokens, 5);
    let c = resolve_vision_config(
        config("cli", "", 0),
        config("", "env", 0),
        Some(config("file", "file", 7)),
        Some(config("legacy", "legacy", 600)),
    );
    assert_eq!((c.endpoint.as_str(), c.model.as_str(), c.max_tokens), ("cli", "env", 7));
}

#[test]
fn legacy_file_is_the_last_resort() {
    let c = resolve_vision_config(
        VisionConfig::default(),
        config("env", "", 0),
        None,
        Some(config("legacy", "legacy", 600)),
    );
    assert_eq!((c.endpoint.as_str(), c.model.as_str(), c.max_tokens), ("env", "legacy", 600));
    let c = resolve_vision_config(VisionConfig::default(), VisionConfig::default(), None, None);
    assert!(!c.is_usable());
    assert_eq!(c.max_tokens, 600);
}
