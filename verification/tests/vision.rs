use imageindex::config::VisionConfig;
use imageindex::geocode::{compose_place, pause_before, reverse_geocode, reverse_url};
use imageindex::vision::{
    authorization, describe_message, describe_ollama, describe_openai_compatible, describe_refusal,
    ollama_request, ollama_url, openai_request, parse_structured, tidy_reasoning_fallback, Answer,
    Reply, VISION_PROMPT,
};

const NO_DESCRIPTION: &str =
    "[no description -- model used the full token budget on internal reasoning]";

fn body(s: &str) -> Reply {
    Reply::Answered(Answer::Body(s.as_bytes().to_vec()))
}

#[test]
fn prompted_format_is_understood() {
    let r = parse_structured("DESCRIPTION: A beach.\nTAGS: beach, outdoor\nTEXT: KEEP OUT");
    assert_eq!(r.description, "A beach.");
    assert_eq!(r.tags, "beach, outdoor");
    assert_eq!(r.ocr_text, "KEEP OUT");
    let r = parse_structured("  TEXT: None \r\n TAGS:\r\nDESCRIPTION:  x\n");
    assert_eq!((r.description.as_str(), r.tags.as_str(), r.ocr_text.as_str()), ("x", "", ""));
}

#[test]
fn free_answers_become_the_description() {
    let r = parse_structured(" A dog.\nOn grass. ");
    assert_eq!(r.description, "A dog.\nOn grass.");
    assert_eq!(r.tags, "");
    let r = parse_structured("A dog.\nTAGS: beach\nTEXT: STOP");
    assert_eq!(r.description, "A dog.\nTAGS: beach\nTEXT: STOP");
    assert_eq!((r.tags.as_str(), r.ocr_text.as_str()), ("", ""));
    let r = parse_structured("DESCRIPTION:\nTAGS: a\nTAGS: b\nTEXT: t\nTEXT: none");
    assert_eq!(r.description, "DESCRIPTION:\nTAGS: a\nTAGS: b\nTEXT: t\nTEXT: none");
    assert_eq!(r.tags, "b");
    assert_eq!(r.ocr_text, "t");
}

#[test]
fn reasoning_is_cut_to_its_conclusion() {
    assert_eq!(tidy_reasoning_fallback("First.\n\n 2. **A park.\n  \n"), "A park.");
    assert_eq!(tidy_reasoning_fallback(""), NO_DESCRIPTION);
    assert_eq!(tidy_reasoning_fallback("text\n1. ** "), NO_DESCRIPTION);
    let long = "x".repeat(241);
    assert_eq!(tidy_reasoning_fallback(&long), format!("{}\u{2026}", "x".repeat(240)));
    assert_eq!(tidy_reasoning_fallback(&long[..240]), "x".repeat(240));
    let wide = "\u{e4}".repeat(121);
    assert_eq!(tidy_reasoning_fallback(&wide), format!("{}\u{2026}", "\u{e4}".repeat(120)));
}

#[test]
fn openai_request_shows_the_photo() {
    let cfg = VisionConfig {
        provider: String::new(),
        endpoint: "e".to_string(),
        model: "m".to_string(),
        api_key: String::new(),
        max_tokens: 600,
    };
    let v = openai_request("data:x", &cfg);
    assert_eq!(v["model"], "m");
    assert_eq!(v["max_tokens"], 600);
    assert_eq!(v["messages"].as_array().unwrap().len(), 1);
    let message = &v["messages"][0];
    assert_eq!(message["role"], "user");
    assert_eq!(message["content"].as_array().unwrap().len(), 2);
    assert_eq!(message["content"][0]["type"], "text");
    assert_eq!(message["content"][0]["text"], VISION_PROMPT);
    assert_eq!(message["content"][1]["type"], "image_url");
    assert_eq!(message["content"][1]["image_url"]["url"], "data:x");
    assert_eq!(v.as_object().unwrap().len(), 3);
}

#[test]
fn ollama_request_shows_the_payload() {
    let v = ollama_request("data:image/jpeg;base64,AAAA,B", "llama");
    assert_eq!(v["model"], "llama");
    assert_eq!(v["prompt"], VISION_PROMPT);
    assert_eq!(v["images"].as_array().unwrap().len(), 1);
    assert_eq!(v["images"][0], "AAAA,B");
    assert_eq!(v["stream"], false);
    assert_eq!(ollama_request("raw", "m")["images"][0], "raw");
    assert_eq!(ollama_url("http://127.0.0.1:11434//"), "http://127.0.0.1:11434/api/generate");
    assert_eq!(authorization("k"), Some("Bearer k".to_string()));
    assert_eq!(authorization(""), None);
}

#[test]
fn openai_replies() {
    let r = describe_openai_compatible(&body(
        r#"{"choices":[{"message":{"content":" DESCRIPTION: A cat.\nTAGS: pet ","reasoning_content":"no"}}]}"#,
    ));
    assert_eq!((r.description.as_str(), r.tags.as_str()), ("A cat.", "pet"));
    let r = describe_openai_compatible(&body(
        r#"{"choices":[{"message":{"content":" ","reasoning_content":"1. think\n2. A cat."}}]}"#,
    ));
    assert_eq!(r.description, "A cat.");
    let r = describe_openai_compatible(&body("{}"));
    assert_eq!(r.description, NO_DESCRIPTION);
    assert_eq!((r.tags.as_str(), r.ocr_text.as_str()), ("", ""));
}

#[test]
fn openai_replies_in_error() {
    let r = describe_openai_compatible(&body("nonsense"));
    assert_eq!(
        r.description,
        "[vision error: bad JSON response: Failed to read JSON: expected ident at line 1 column 2]"
    );
    let r = describe_openai_compatible(&Reply::Answered(Answer::Unreadable("timed out".into())));
    assert_eq!(r.description, "[vision error: bad JSON response: timed out]");
    let r = describe_openai_compatible(&Reply::Answered(Answer::Failed("no route".into())));
    assert_eq!(r.description, "[vision error: no route]");
    let r = describe_openai_compatible(&Reply::Refused(429, "y".repeat(300)));
    assert_eq!(r.description, format!("[vision error: HTTP 429 {}]", "y".repeat(200)));
    assert_eq!(describe_refusal(500, "").description, "[vision error: HTTP 500 ]");
}

#[test]
fn texts_are_cut_between_characters() {
    let split = format!("y{}", "\u{e4}".repeat(150));
    let shown = format!("y{}", "\u{e4}".repeat(99));
    let refused = format!("[vision error: HTTP 400 {}]", shown);
    assert_eq!(describe_refusal(400, &split).description, refused);
    let r = describe_openai_compatible(&Reply::Refused(400, split.clone()));
    assert_eq!(r.description, refused);
    let concluded = format!("y{}\u{2026}", "\u{e4}".repeat(119));
    assert_eq!(tidy_reasoning_fallback(&split), concluded);
    let reply = format!(
        r#"{{"choices":[{{"message":{{"content":"","reasoning_content":"{}"}}}}]}}"#,
        split
    );
    assert_eq!(describe_openai_compatible(&body(&reply)).description, concluded);
    assert_eq!(describe_message("seen", &split).description, "seen");
    assert_eq!(describe_message("", &split).description, concluded);
    let wide = format!("{}\u{1f600}", "x".repeat(238));
    assert_eq!(tidy_reasoning_fallback(&wide), format!("{}\u{2026}", "x".repeat(238)));
    let fits = format!("{}\u{1f600}", "x".repeat(236));
    assert_eq!(tidy_reasoning_fallback(&fits), fits);
}

#[test]
fn ollama_replies() {
    let r = describe_ollama(&Answer::Body(br#"{"response":"TAGS: a\nDESCRIPTION: b"}"#.to_vec()));
    assert_eq!((r.description.as_str(), r.tags.as_str()), ("b", "a"));
    assert_eq!(describe_ollama(&Answer::Body(b"{}".to_vec())).description, "");
    assert_eq!(
        describe_ollama(&Answer::Body(b"".to_vec())).description,
        "[vision error: bad JSON response: Failed to read JSON: EOF while parsing a value at line 1 column 0]"
    );
    assert_eq!(
        describe_ollama(&Answer::Unreadable("x".into())).description,
        "[vision error: bad JSON response: x]"
    );
    assert_eq!(describe_ollama(&Answer::Failed("x".into())).description, "[vision error: x]");
}

#[test]
fn places_of_addresses() {
    let place = |s: &str| reverse_geocode(s.as_bytes());
    assert_eq!(
        place(r#"{"address":{"county":"c","town":"Dachau","country":"Germany"},"display_name":"d"}"#),
        Some("Dachau, Germany".to_string())
    );
    assert_eq!(place(r#"{"address":{"city":"A","town":"B"}}"#), Some("A".to_string()));
    assert_eq!(place(r#"{"address":{"country":"X"}}"#), Some("X".to_string()));
    assert_eq!(place(r#"{"address":{"county":"Y","municipality":"Z"}}"#), Some("Z".to_string()));
    assert_eq!(place(r#"{"address":{"city":7},"display_name":"d"}"#), Some("d".to_string()));
    assert_eq!(place(r#"{"error":"none"}"#), None);
    assert_eq!(place("<html>"), None);
    assert_eq!(
        compose_place(Some("L".into()), Some("C".into()), None),
        Some("L, C".to_string())
    );
    assert_eq!(
        reverse_url("48.1", "-11.5"),
        "https://nominatim.openstreetmap.org/reverse?format=json&lat=48.1&lon=-11.5&zoom=10&addressdetails=1"
    );
}

#[test]
fn requests_for_places_keep_their_interval() {
    assert_eq!(pause_before(None), 0);
    assert_eq!(pause_before(Some(0)), 1000);
    assert_eq!(pause_before(Some(400)), 600);
    assert_eq!(pause_before(Some(1000)), 0);
    assert_eq!(pause_before(Some(u64::MAX)), 0);
}
