//! Scene descriptions by a vision model: the requests that are sent and what
//! is made of the replies.

use crate::config::{Settings, VisionConfig};
use crate::json::{
    bool_value, element, empty_object, list_value, member, number_value, parse, set_member, text,
    text_value, JsonTree,
};
use crate::number::decimal;
use crate::text::{
    after_prefix, chars_of, find_from, joined, lines_of, same_text_ignoring_ascii_case, text_of,
    trimmed, without_leading, without_trailing, CharClass,
};
use vstd::prelude::*;

verus! {

/// What the model is asked.
pub const VISION_PROMPT: &'static str = "Analyze this photo and respond in EXACTLY this three-line format, nothing else, in English:\nDESCRIPTION: <one short sentence: indoor/outdoor, type of place, what is happening>\nTAGS: <comma-separated short scene tags, e.g. indoor, outdoor, nature, city, beach, food, pet, vehicle, event, document, night>\nTEXT: <any clearly readable text visible in the photo (signs, labels, screens, documents), or 'none' if there is none>\nDo not guess real names of any people -- describe them only generically (e.g. 'two adults', 'a child').";

/// What a photo shows, as far as the model says.
#[derive(Debug, Clone)]
pub struct VisionResult {
    pub description: String,
    pub tags: String,
    pub ocr_text: String,
}

/// What a `VisionResult` holds.
pub struct Scene {
    pub description: Seq<char>,
    pub tags: Seq<char>,
    pub ocr_text: Seq<char>,
}

impl View for VisionResult {
    type V = Scene;

    open spec fn view(&self) -> Scene {
        Scene { description: self.description@, tags: self.tags@, ocr_text: self.ocr_text@ }
    }
}

/// Nothing is said.
pub open spec fn blank() -> Scene {
    described(seq![])
}

/// A description without tags and text.
pub open spec fn described(description: Seq<char>) -> Scene {
    Scene { description, tags: seq![], ocr_text: seq![] }
}

impl Default for VisionResult {
    fn default() -> (r: VisionResult)
        ensures
            r@ == blank(),
    {
        only_description(String::new())
    }
}

fn only_description(description: String) -> (r: VisionResult)
    ensures
        r@ == described(description@),
{
    VisionResult { description, tags: String::new(), ocr_text: String::new() }
}

/// The bytes that UTF-8 takes for `c`.
pub open spec fn width(c: char) -> nat {
    if (c as u32) < 0x80 {
        1
    } else if (c as u32) < 0x800 {
        2
    } else if (c as u32) < 0x10000 {
        3
    } else {
        4
    }
}

/// The bytes that UTF-8 takes for `s`.
pub open spec fn byte_len(s: Seq<char>) -> nat
    decreases s.len(),
{
    if s.len() == 0 {
        0
    } else {
        byte_len(s.drop_last()) + width(s.last())
    }
}

/// The longest beginning of `s` that takes at most `limit` bytes.
pub open spec fn cut(s: Seq<char>, limit: nat) -> Seq<char>
    decreases s.len(),
{
    if byte_len(s) <= limit {
        s
    } else {
        cut(s.drop_last(), limit)
    }
}

proof fn lemma_byte_len_grows(s: Seq<char>, m: int, n: int)
    requires
        0 <= m < n <= s.len(),
    ensures
        byte_len(s.take(m)) < byte_len(s.take(n)),
    decreases n - m,
{
    assert(s.take(n).drop_last() == s.take(n - 1));
    if m < n - 1 {
        lemma_byte_len_grows(s, m, n - 1);
    }
}

proof fn lemma_cut_behind(s: Seq<char>, limit: nat, n: int)
    requires
        0 <= n <= s.len(),
        byte_len(s.take(n)) <= limit,
        n < s.len() ==> byte_len(s.take(n + 1)) > limit,
    ensures
        cut(s, limit) == s.take(n),
    decreases s.len(),
{
    assert(s.take(s.len() as int) == s);
    if n < s.len() {
        if n + 1 < s.len() {
            lemma_byte_len_grows(s, n + 1, s.len() as int);
        }
        let rest = s.drop_last();
        assert(rest.take(n) == s.take(n));
        if n < rest.len() {
            assert(rest.take(n + 1) == s.take(n + 1));
        }
        lemma_cut_behind(rest, limit, n);
    }
}

/// A cut text is a beginning of the whole one and keeps the limit, and no
/// longer beginning does. It takes as many bytes as allowed where a character
/// ends there.
pub proof fn law_cut_is_longest(s: Seq<char>, limit: nat)
    ensures
        cut(s, limit).len() <= s.len(),
        cut(s, limit) == s.take(cut(s, limit).len() as int),
        byte_len(cut(s, limit)) <= limit,
        forall|n: int|
            cut(s, limit).len() < n <= s.len() ==> byte_len(#[trigger] s.take(n)) > limit,
        (exists|n: int| 0 <= n <= s.len() && byte_len(#[trigger] s.take(n)) == limit) ==> byte_len(
            cut(s, limit),
        ) == limit,
    decreases s.len(),
{
    assert(s.take(s.len() as int) == s);
    if byte_len(s) > limit {
        let rest = s.drop_last();
        law_cut_is_longest(rest, limit);
        let k = cut(s, limit).len();
        assert(rest.take(k as int) == s.take(k as int));
        assert forall|n: int| k < n <= s.len() implies byte_len(#[trigger] s.take(n)) > limit by {
            if n < s.len() {
                assert(rest.take(n) == s.take(n));
            }
        }
    }
    let k = cut(s, limit).len() as int;
    if exists|n: int| 0 <= n <= s.len() && byte_len(#[trigger] s.take(n)) == limit {
        let n = choose|n: int| 0 <= n <= s.len() && byte_len(#[trigger] s.take(n)) == limit;
        if n < k {
            lemma_byte_len_grows(s, n, k);
        }
    }
}

fn char_width(c: char) -> (w: usize)
    ensures
        w == width(c),
{
    let x = c as u32;
    if x < 0x80 {
        1
    } else if x < 0x800 {
        2
    } else if x < 0x10000 {
        3
    } else {
        4
    }
}

/// Cuts `s` to at most `limit` bytes, between characters. The second part
/// tells whether something was cut off.
fn cut_text(s: &str, limit: usize) -> (r: (String, bool))
    requires
        limit < 0x1000,
    ensures
        r.0@ == cut(s@, limit as nat),
        r.1 == (byte_len(s@) > limit),
{
    let v = chars_of(s);
    let mut n: usize = 0;
    let mut bytes: usize = 0;
    proof {
        assert(s@.take(0).len() == 0);
        assert(s@.take(s@.len() as int) == s@);
    }
    while n < v.len()
        invariant
            v@ == s@,
            limit < 0x1000,
            n <= v@.len(),
            bytes <= limit,
            bytes == byte_len(s@.take(n as int)),
            s@.take(s@.len() as int) == s@,
        decreases v@.len() - n,
    {
        proof {
            assert(s@.take(n + 1).drop_last() == s@.take(n as int));
        }
        let more = bytes + char_width(v[n]);
        if more > limit {
            proof {
                if n + 1 < v@.len() {
                    lemma_byte_len_grows(s@, n + 1, v@.len() as int);
                }
                lemma_cut_behind(s@, limit as nat, n as int);
                assert(v@.subrange(0, n as int) == s@.take(n as int));
            }
            return (text_of(&v, 0, n), true);
        }
        bytes = more;
        n = n + 1;
    }
    (s.to_owned(), false)
}

/// The last line that is not blank, without white space at its ends.
pub open spec fn last_words(lines: Seq<Seq<char>>) -> Seq<char>
    decreases lines.len(),
{
    if lines.len() == 0 {
        seq![]
    } else {
        let line = crate::text::trim(lines.last());
        if line.len() > 0 {
            line
        } else {
            last_words(lines.drop_last())
        }
    }
}

/// The end of a chain of thought: its last line that is not blank, without the
/// number or mark of a list item.
pub open spec fn conclusion(reasoning: Seq<char>) -> Seq<char> {
    crate::text::drop_leading(last_words(crate::text::lines(reasoning)), CharClass::ListMark)
}

/// The longest conclusion that is shown, in bytes.
pub const MAX_CONCLUSION: usize = 240;

/// What is shown in place of a description that the model did not give.
pub open spec fn fallback_text(reasoning: Seq<char>) -> Seq<char> {
    let s = conclusion(reasoning);
    if s.len() == 0 {
        "[no description -- model used the full token budget on internal reasoning]"@
    } else if byte_len(s) > MAX_CONCLUSION {
        cut(s, MAX_CONCLUSION as nat).push('\u{2026}')
    } else {
        s
    }
}

/// The conclusion of `reasoning`.
fn conclude(reasoning: &str) -> (s: String)
    ensures
        s@ == conclusion(reasoning@),
{
    let lines = lines_of(reasoning);
    let ghost all = crate::text::views(lines@);
    let mut i = lines.len();
    proof {
        assert(all.take(i as int) == all);
    }
    while i > 0
        invariant
            all == crate::text::views(lines@),
            all == crate::text::lines(reasoning@),
            i <= lines@.len(),
            last_words(all.take(i as int)) == last_words(all),
        decreases i,
    {
        let line = trimmed(&lines[i - 1]);
        proof {
            assert(all.take(i as int).last() == lines@[i - 1]@);
            assert(all.take(i as int).drop_last() == all.take(i - 1));
        }
        if !line.as_str().is_empty() {
            return without_leading(&line, CharClass::ListMark);
        }
        i = i - 1;
    }
    proof {
        assert(all.take(0).len() == 0);
    }
    String::new()
}

/// What is shown of the chain of thought of a model that gave no description:
/// its conclusion, cut to length.
pub fn tidy_reasoning_fallback(reasoning: &str) -> (s: String)
    ensures
        s@ == fallback_text(reasoning@),
{
    let s = conclude(reasoning);
    if s.as_str().is_empty() {
        return "[no description -- model used the full token budget on internal reasoning]"
            .to_owned();
    }
    let (mut t, more) = cut_text(&s, MAX_CONCLUSION);
    if more {
        t.push('\u{2026}');
    }
    t
}

proof fn lemma_ascii_width(s: Seq<char>)
    requires
        crate::text::all_ascii(s),
    ensures
        byte_len(s) == s.len(),
    decreases s.len(),
{
    if s.len() > 0 {
        let rest = s.drop_last();
        assert(crate::text::all_ascii(rest)) by {
            assert forall|i: int| 0 <= i < rest.len() implies (#[trigger] rest[i] as u32)
                < 128 by {
                assert(rest[i] == s[i]);
            }
        }
        lemma_ascii_width(rest);
    }
}

/// Whatever a model thought, something is shown in place of its description,
/// and it is short.
pub proof fn law_fallback_is_short(reasoning: Seq<char>)
    ensures
        fallback_text(reasoning).len() > 0,
        byte_len(fallback_text(reasoning)) <= MAX_CONCLUSION + 3,
{
    let s = conclusion(reasoning);
    if s.len() == 0 {
        let t = "[no description -- model used the full token budget on internal reasoning]"@;
        reveal_strlit("[no description -- model used the full token budget on internal reasoning]");
        assert(t.len() == 74);
        assert(crate::text::all_ascii(t));
        lemma_ascii_width(t);
    } else {
        law_cut_is_longest(s, MAX_CONCLUSION as nat);
        let t = cut(s, MAX_CONCLUSION as nat);
        assert(t.push('\u{2026}').drop_last() == t);
    }
}

/// A text field that says there is no text.
pub open spec fn says_nothing(s: Seq<char>) -> bool {
    s.len() == 0 || crate::text::same_ignoring_ascii_case(s, "none"@)
}

/// What follows `prefix` on the last line that begins with it, without white
/// space at the ends; where `skip_nothing` is set, a line that says nothing
/// does not count. Empty where there is no such line.
pub open spec fn last_field(
    lines: Seq<Seq<char>>,
    prefix: Seq<char>,
    skip_nothing: bool,
) -> Seq<char>
    decreases lines.len(),
{
    if lines.len() == 0 {
        seq![]
    } else {
        let line = crate::text::trim(lines.last());
        let rest = crate::text::trim(line.skip(prefix.len() as int));
        if crate::text::starts_with(line, prefix) && !(skip_nothing && says_nothing(rest)) {
            rest
        } else {
            last_field(lines.drop_last(), prefix, skip_nothing)
        }
    }
}

/// Some line begins with `prefix`, apart from white space.
pub open spec fn has_field(lines: Seq<Seq<char>>, prefix: Seq<char>) -> bool {
    exists|i: int|
        0 <= i < lines.len() && crate::text::starts_with(
            crate::text::trim(#[trigger] lines[i]),
            prefix,
        )
}

/// What an answer says: the fields `DESCRIPTION:`, `TAGS:` and `TEXT:`. The
/// whole answer stands in for an empty description. An answer without a
/// `DESCRIPTION:` line is all description.
pub open spec fn structured(content: Seq<char>) -> Scene {
    let lines = crate::text::lines(content);
    let description = last_field(lines, "DESCRIPTION:"@, false);
    if !has_field(lines, "DESCRIPTION:"@) {
        described(crate::text::trim(content))
    } else {
        Scene {
            description: if description.len() > 0 {
                description
            } else {
                crate::text::trim(content)
            },
            tags: last_field(lines, "TAGS:"@, false),
            ocr_text: last_field(lines, "TEXT:"@, true),
        }
    }
}

proof fn lemma_one_more_line(lines: Seq<Seq<char>>, prefix: Seq<char>)
    requires
        lines.len() > 0,
    ensures
        has_field(lines, prefix) <==> has_field(lines.drop_last(), prefix)
            || crate::text::starts_with(crate::text::trim(lines.last()), prefix),
{
    let rest = lines.drop_last();
    if has_field(rest, prefix) {
        let i = choose|i: int|
            0 <= i < rest.len() && crate::text::starts_with(
                crate::text::trim(#[trigger] rest[i]),
                prefix,
            );
        assert(lines[i] == rest[i]);
    }
    if has_field(lines, prefix) {
        let i = choose|i: int|
            0 <= i < lines.len() && crate::text::starts_with(
                crate::text::trim(#[trigger] lines[i]),
                prefix,
            );
        if i < rest.len() {
            assert(rest[i] == lines[i]);
        }
    }
}

proof fn lemma_prefixes_differ(line: Seq<char>)
    ensures
        crate::text::starts_with(line, "DESCRIPTION:"@) ==> !crate::text::starts_with(
            line,
            "TAGS:"@,
        ) && !crate::text::starts_with(line, "TEXT:"@),
        crate::text::starts_with(line, "TAGS:"@) ==> !crate::text::starts_with(line, "TEXT:"@),
{
    reveal_strlit("DESCRIPTION:");
    reveal_strlit("TAGS:");
    reveal_strlit("TEXT:");
    if crate::text::starts_with(line, "DESCRIPTION:"@) {
        assert(line.take(12)[0] == 'D');
    }
    if crate::text::starts_with(line, "TAGS:"@) {
        assert(line.take(5)[0] == 'T' && line.take(5)[1] == 'A');
    }
    if crate::text::starts_with(line, "TEXT:"@) {
        assert(line.take(5)[0] == 'T' && line.take(5)[1] == 'E');
    }
}

/// Reads an answer in the format that the prompt asks for.
pub fn parse_structured(content: &str) -> (r: VisionResult)
    ensures
        r@ == structured(content@),
{
    let mut description = String::new();
    let mut tags = String::new();
    let mut ocr_text = String::new();
    let mut formatted = false;
    let lines = lines_of(content);
    let ghost all = crate::text::views(lines@);
    for i in 0..lines.len()
        invariant
            all == crate::text::views(lines@),
            formatted == has_field(all.take(i as int), "DESCRIPTION:"@),
            description@ == last_field(all.take(i as int), "DESCRIPTION:"@, false),
            tags@ == last_field(all.take(i as int), "TAGS:"@, false),
            ocr_text@ == last_field(all.take(i as int), "TEXT:"@, true),
    {
        let line = trimmed(&lines[i]);
        proof {
            assert(all.take(i + 1).drop_last() == all.take(i as int));
            assert(all.take(i + 1).last() == lines@[i as int]@);
            lemma_prefixes_differ(line@);
            lemma_one_more_line(all.take(i + 1), "DESCRIPTION:"@);
        }
        if let Some(rest) = after_prefix(&line, "DESCRIPTION:") {
            formatted = true;
            description = trimmed(&rest);
        } else if let Some(rest) = after_prefix(&line, "TAGS:") {
            tags = trimmed(&rest);
        } else if let Some(rest) = after_prefix(&line, "TEXT:") {
            let t = trimmed(&rest);
            if !t.as_str().is_empty() && !same_text_ignoring_ascii_case(&t, "none") {
                ocr_text = t;
            }
        }
    }
    proof {
        assert(all.take(lines@.len() as int) == all);
    }
    if !formatted {
        return only_description(trimmed(content));
    }
    if description.as_str().is_empty() {
        description = trimmed(content);
    }
    VisionResult { description, tags, ocr_text }
}

/// The seconds that an OpenAI-compatible service has for its reply.
pub const OPENAI_TIMEOUT_SECS: u64 = 60;

/// The seconds that an Ollama instance has for its reply.
pub const OLLAMA_TIMEOUT_SECS: u64 = 120;

/// An object with one member.
pub open spec fn object_of(key: Seq<char>, item: JsonTree) -> JsonTree {
    JsonTree::Object(Map::empty().insert(key, item))
}

/// An object with one member more.
pub open spec fn with_member(object: JsonTree, key: Seq<char>, item: JsonTree) -> JsonTree {
    JsonTree::Object(object->Object_0.insert(key, item))
}

/// The request that shows a photo to an OpenAI-compatible service: one message
/// with the prompt and the photo.
pub open spec fn openai_request_tree(data_url: Seq<char>, settings: Settings) -> JsonTree {
    let prompt = with_member(
        object_of("type"@, JsonTree::Text("text"@)),
        "text"@,
        JsonTree::Text(VISION_PROMPT@),
    );
    let photo = with_member(
        object_of("type"@, JsonTree::Text("image_url"@)),
        "image_url"@,
        object_of("url"@, JsonTree::Text(data_url)),
    );
    let message = with_member(
        object_of("role"@, JsonTree::Text("user"@)),
        "content"@,
        JsonTree::List(seq![prompt, photo]),
    );
    with_member(
        with_member(
            object_of("model"@, JsonTree::Text(settings.model)),
            "max_tokens"@,
            JsonTree::Number(Some(settings.max_tokens as u64)),
        ),
        "messages"@,
        JsonTree::List(seq![message]),
    )
}

/// The base64 part of a data URL: what follows its first comma.
pub open spec fn payload(data_url: Seq<char>) -> Seq<char> {
    let n = crate::text::find(data_url, ',');
    if n < data_url.len() {
        data_url.skip(n as int + 1)
    } else {
        data_url
    }
}

/// The request that shows a photo to an Ollama instance.
pub open spec fn ollama_request_tree(data_url: Seq<char>, model: Seq<char>) -> JsonTree {
    with_member(
        with_member(
            with_member(
                object_of("model"@, JsonTree::Text(model)),
                "prompt"@,
                JsonTree::Text(VISION_PROMPT@),
            ),
            "images"@,
            JsonTree::List(seq![JsonTree::Text(payload(data_url))]),
        ),
        "stream"@,
        JsonTree::Bool(false),
    )
}

fn object(key: &str, item: serde_json::Value) -> (v: serde_json::Value)
    ensures
        crate::json::json_tree(v) == object_of(key@, crate::json::json_tree(item)),
{
    let mut v = empty_object();
    set_member(&mut v, key, item);
    v
}

fn list_of_one(item: serde_json::Value) -> (v: serde_json::Value)
    ensures
        crate::json::json_tree(v) == JsonTree::List(seq![crate::json::json_tree(item)]),
{
    let ghost tree = crate::json::json_tree(item);
    let mut items: Vec<serde_json::Value> = Vec::new();
    items.push(item);
    proof {
        assert(crate::json::json_trees(items@) == seq![tree]);
    }
    list_value(items)
}

/// The body of a request to an OpenAI-compatible service about the photo
/// behind `data_url`.
pub fn openai_request(data_url: &str, cfg: &VisionConfig) -> (body: serde_json::Value)
    ensures
        crate::json::json_tree(body) == openai_request_tree(data_url@, cfg@),
{
    let mut prompt = object("type", text_value("text"));
    set_member(&mut prompt, "text", text_value(VISION_PROMPT));
    let mut photo = object("type", text_value("image_url"));
    set_member(&mut photo, "image_url", object("url", text_value(data_url)));
    let ghost parts = seq![crate::json::json_tree(prompt), crate::json::json_tree(photo)];
    let mut content: Vec<serde_json::Value> = Vec::new();
    content.push(prompt);
    content.push(photo);
    proof {
        assert(crate::json::json_trees(content@) == parts);
    }
    let mut message = object("role", text_value("user"));
    set_member(&mut message, "content", list_value(content));
    let mut body = object("model", text_value(&cfg.model));
    set_member(&mut body, "max_tokens", number_value(cfg.max_tokens));
    set_member(&mut body, "messages", list_of_one(message));
    body
}

/// The body of a request to an Ollama instance about the photo behind
/// `data_url`.
pub fn ollama_request(data_url: &str, model: &str) -> (body: serde_json::Value)
    ensures
        crate::json::json_tree(body) == ollama_request_tree(data_url@, model@),
{
    let v = chars_of(data_url);
    proof {
        assert(v@.skip(0) == v@);
    }
    let n = find_from(&v, 0, ',');
    let image = if n < v.len() {
        proof {
            assert(v@.subrange(n + 1, v@.len() as int) == v@.skip(n + 1));
        }
        text_of(&v, n + 1, v.len())
    } else {
        data_url.to_owned()
    };
    let mut body = object("model", text_value(model));
    set_member(&mut body, "prompt", text_value(VISION_PROMPT));
    set_member(&mut body, "images", list_of_one(text_value(&image)));
    set_member(&mut body, "stream", bool_value(false));
    body
}

/// The address at which an Ollama instance takes requests.
pub open spec fn ollama_address(endpoint: Seq<char>) -> Seq<char> {
    crate::text::drop_trailing(endpoint, CharClass::Slash) + "/api/generate"@
}

/// The address at which an Ollama instance takes requests.
pub fn ollama_url(endpoint: &str) -> (url: String)
    ensures
        url@ == crate::text::drop_trailing(endpoint@, CharClass::Slash) + "/api/generate"@,
        url@ == ollama_address(endpoint@),
{
    joined(&without_trailing(endpoint, CharClass::Slash), "/api/generate")
}

/// The authorization that goes with a request, where there is a key.
pub open spec fn bearer(api_key: Seq<char>) -> Option<Seq<char>> {
    if api_key.len() > 0 {
        Some("Bearer "@ + api_key)
    } else {
        None
    }
}

/// The authorization that goes with a request, where there is a key.
pub fn authorization(api_key: &str) -> (r: Option<String>)
    ensures
        crate::geocode::optional_view(r) == if api_key@.len() > 0 {
            Some("Bearer "@ + api_key@)
        } else {
            None
        },
        crate::geocode::optional_view(r) == bearer(api_key@),
{
    if api_key.is_empty() {
        None
    } else {
        Some(joined("Bearer ", api_key))
    }
}

/// What came of a request.
pub enum Answer {
    /// The body of a reply.
    Body(Vec<u8>),
    /// A reply whose body could not be read, and why.
    Unreadable(String),
    /// No reply, and why.
    Failed(String),
}

/// What came of a request to a service that tells why it refuses one.
pub enum Reply {
    Answered(Answer),
    /// The status code and the body of a reply that refuses the request.
    Refused(u16, String),
}

/// The most that is shown of the reason for a refusal, in bytes.
pub const MAX_REASON: usize = 200;

/// The text of the error `e`.
pub open spec fn error_text(e: Seq<char>) -> Seq<char> {
    "[vision error: "@ + e + "]"@
}

/// The text of the error for a reply that is not JSON.
pub open spec fn bad_reply_text(e: Seq<char>) -> Seq<char> {
    error_text("bad JSON response: "@ + e)
}

/// The text of the error for a refused request.
pub open spec fn refusal_text(code: u16, reason: Seq<char>) -> Seq<char> {
    error_text("HTTP "@ + crate::number::digits(code as nat) + " "@ + cut(
        reason,
        MAX_REASON as nat,
    ))
}

/// What a message of a chat says: its content, or where that is blank what it
/// gives of its reasoning.
pub open spec fn message_scene(content: Seq<char>, reasoning: Seq<char>) -> Scene {
    let content = crate::text::trim(content);
    if content.len() > 0 {
        structured(content)
    } else {
        described(fallback_text(reasoning))
    }
}

/// A text that is there, else the empty one.
pub open spec fn text_or_nothing(tree: JsonTree) -> Seq<char> {
    match tree.text() {
        Some(s) => s,
        None => seq![],
    }
}

/// The message in the reply of an OpenAI-compatible service.
pub open spec fn message_of(tree: JsonTree) -> JsonTree {
    tree.member("choices"@).element(0).member("message"@)
}

/// What is said by a reply that was read as JSON, or failed to be.
pub open spec fn openai_body_scene(reply: Result<JsonTree, Seq<char>>) -> Scene {
    match reply {
        Ok(tree) => message_scene(
            text_or_nothing(message_of(tree).member("content"@)),
            text_or_nothing(message_of(tree).member("reasoning_content"@)),
        ),
        Err(e) => described(bad_reply_text("Failed to read JSON: "@ + e)),
    }
}

/// What is said by the reply of an OpenAI-compatible service.
pub open spec fn openai_scene(reply: Reply) -> Scene {
    match reply {
        Reply::Answered(Answer::Body(body)) => openai_body_scene(crate::json::parsed_json(body@)),
        Reply::Answered(Answer::Unreadable(e)) => described(bad_reply_text(e@)),
        Reply::Answered(Answer::Failed(e)) => described(error_text(e@)),
        Reply::Refused(code, reason) => described(refusal_text(code, reason@)),
    }
}

/// What is said by the reply of an Ollama instance that was read as JSON, or
/// failed to be.
pub open spec fn ollama_body_scene(reply: Result<JsonTree, Seq<char>>) -> Scene {
    match reply {
        Ok(tree) => structured(crate::text::trim(text_or_nothing(tree.member("response"@)))),
        Err(e) => described(bad_reply_text("Failed to read JSON: "@ + e)),
    }
}

/// What is said by the reply of an Ollama instance.
pub open spec fn ollama_scene(answer: Answer) -> Scene {
    match answer {
        Answer::Body(body) => ollama_body_scene(crate::json::parsed_json(body@)),
        Answer::Unreadable(e) => described(bad_reply_text(e@)),
        Answer::Failed(e) => described(error_text(e@)),
    }
}

fn error_result(e: &str) -> (r: VisionResult)
    ensures
        r@ == described(error_text(e@)),
{
    only_description(joined(&joined("[vision error: ", e), "]"))
}

fn bad_reply(e: &str) -> (r: VisionResult)
    ensures
        r@ == described(bad_reply_text(e@)),
{
    error_result(&joined("bad JSON response: ", e))
}

fn text_or_empty(v: &serde_json::Value) -> (s: String)
    ensures
        s@ == text_or_nothing(crate::json::json_tree(*v)),
{
    match text(v) {
        Some(s) => s,
        None => String::new(),
    }
}

/// What a message with this content and reasoning says.
pub fn describe_message(content: &str, reasoning: &str) -> (r: VisionResult)
    ensures
        r@ == message_scene(content@, reasoning@),
{
    let content = trimmed(content);
    if !content.as_str().is_empty() {
        parse_structured(&content)
    } else {
        only_description(tidy_reasoning_fallback(reasoning))
    }
}

/// What is shown of a refused request.
pub fn describe_refusal(code: u16, reason: &str) -> (r: VisionResult)
    ensures
        r@ == described(refusal_text(code, reason@)),
{
    let (shown, _) = cut_text(reason, MAX_REASON);
    let status = joined("HTTP ", &decimal(code as u64));
    error_result(&joined(&joined(&status, " "), &shown))
}

/// What the reply of an OpenAI-compatible service says of a photo.
pub fn describe_openai_compatible(reply: &Reply) -> (r: VisionResult)
    ensures
        r@ == openai_scene(*reply),
{
    match reply {
        Reply::Answered(Answer::Body(body)) => match parse(body) {
            Ok(data) => {
                let message = member(element(member(&data, "choices"), 0), "message");
                let content = text_or_empty(member(message, "content"));
                let reasoning = text_or_empty(member(message, "reasoning_content"));
                describe_message(&content, &reasoning)
            },
            Err(e) => bad_reply(&joined("Failed to read JSON: ", &e)),
        },
        Reply::Answered(Answer::Unreadable(e)) => bad_reply(e),
        Reply::Answered(Answer::Failed(e)) => error_result(e),
        Reply::Refused(code, reason) => describe_refusal(*code, reason),
    }
}

/// What the reply of an Ollama instance says of a photo.
pub fn describe_ollama(answer: &Answer) -> (r: VisionResult)
    ensures
        r@ == ollama_scene(*answer),
{
    match answer {
        Answer::Body(body) => match parse(body) {
            Ok(data) => parse_structured(&trimmed(&text_or_empty(member(&data, "response")))),
            Err(e) => bad_reply(&joined("Failed to read JSON: ", &e)),
        },
        Answer::Unreadable(e) => bad_reply(e),
        Answer::Failed(e) => error_result(e),
    }
}

/// A text within one line, without white space at its ends.
pub open spec fn one_clean_line(s: Seq<char>) -> bool {
    crate::text::trim(s) == s && !s.contains('\n')
}

/// A line that gives the field behind `prefix`.
pub open spec fn field_line(prefix: Seq<char>, s: Seq<char>) -> Seq<char> {
    prefix + seq![' '] + s
}

/// An answer in the format that the prompt asks for.
pub open spec fn prompted_answer(
    description: Seq<char>,
    tags: Seq<char>,
    ocr_text: Seq<char>,
) -> Seq<char> {
    field_line("DESCRIPTION:"@, description) + seq!['\n'] + (field_line("TAGS:"@, tags)
        + seq!['\n'] + field_line("TEXT:"@, ocr_text))
}

/// `prefix` begins and ends with other than white space and is within a line.
spec fn is_field_name(prefix: Seq<char>) -> bool {
    &&& prefix.len() > 0
    &&& !crate::text::white_space(prefix[0])
    &&& !crate::text::white_space(prefix.last())
    &&& !prefix.contains('\n')
}

proof fn lemma_field_line(prefix: Seq<char>, s: Seq<char>)
    requires
        is_field_name(prefix),
        one_clean_line(s),
    ensures
        ({
            let line = crate::text::trim(field_line(prefix, s));
            crate::text::starts_with(line, prefix) && crate::text::trim(
                line.skip(prefix.len() as int),
            ) == s
        }),
        !field_line(prefix, s).contains('\n'),
        crate::text::without_return(field_line(prefix, s)) == field_line(prefix, s),
{
    let line = field_line(prefix, s);
    let n = prefix.len() as int;
    assert(crate::text::drop_leading(line, CharClass::White) == line);
    lemma_trimmed_ends(s);
    if s.len() > 0 {
        assert(line.last() == s.last());
        assert(crate::text::trim(line) == line);
        let rest = line.skip(n);
        assert(rest[0] == ' ');
        assert(rest.drop_first() == s);
        assert(crate::text::drop_leading(rest, CharClass::White) == crate::text::drop_leading(
            s,
            CharClass::White,
        ));
        assert(line.take(n) == prefix);
    } else {
        assert(line.last() == ' ');
        assert(line.drop_last() == prefix);
        assert(crate::text::drop_trailing(line, CharClass::White)
            == crate::text::drop_trailing(prefix, CharClass::White));
        assert(crate::text::trim(line) == prefix);
        assert(prefix.skip(n) == s);
        assert(prefix.take(n) == prefix);
    }
    assert forall|i: int| 0 <= i < line.len() implies line[i] != '\n' by {
        if i < n {
            assert(prefix.contains(prefix[i]));
        } else if i > n {
            assert(s.contains(s[i - n - 1]));
        }
    }
}

proof fn lemma_trimmed_ends(s: Seq<char>)
    requires
        crate::text::trim(s) == s,
    ensures
        s.len() > 0 ==> !crate::text::white_space(s[0]) && !crate::text::white_space(s.last()),
        crate::text::drop_leading(s, CharClass::White) == s,
        crate::text::drop_trailing(s, CharClass::White) == s,
{
    let t = crate::text::drop_leading(s, CharClass::White);
    lemma_cut_lengths(s);
    lemma_cut_lengths(t);
    if s.len() > 0 {
        if crate::text::white_space(s[0]) {
            lemma_cut_lengths(s.drop_first());
        }
        if crate::text::white_space(t.last()) {
            lemma_cut_lengths(t.drop_last());
        }
    }
}

proof fn lemma_cut_lengths(s: Seq<char>)
    ensures
        crate::text::drop_leading(s, CharClass::White).len() <= s.len(),
        crate::text::drop_trailing(s, CharClass::White).len() <= s.len(),
    decreases s.len(),
{
    if s.len() > 0 {
        lemma_cut_lengths(s.drop_first());
        lemma_cut_lengths(s.drop_last());
    }
}

proof fn lemma_first_line(line: Seq<char>, rest: Seq<char>)
    requires
        !line.contains('\n'),
    ensures
        crate::text::lines(line + seq!['\n'] + rest) == seq![
            crate::text::without_return(line),
        ] + crate::text::lines(rest),
{
    let s = line + seq!['\n'] + rest;
    let n = crate::text::find(s, '\n');
    crate::text::lemma_find(s, '\n');
    assert(s[line.len() as int] == '\n');
    if n < line.len() {
        assert(line.contains(line[n as int]));
    }
    assert(s.take(n as int) == line);
    assert(s.skip(n as int + 1) == rest);
}

/// A model that answers in the format that the prompt asks for is understood:
/// its three fields come back, except that `none` stands for no text.
pub proof fn law_prompted_format_is_understood(
    description: Seq<char>,
    tags: Seq<char>,
    ocr_text: Seq<char>,
)
    requires
        one_clean_line(description),
        one_clean_line(tags),
        one_clean_line(ocr_text),
        description.len() > 0,
    ensures
        structured(prompted_answer(description, tags, ocr_text)) == (Scene {
            description,
            tags,
            ocr_text: if says_nothing(ocr_text) {
                seq![]
            } else {
                ocr_text
            },
        }),
{
    let (d, t, o) = ("DESCRIPTION:"@, "TAGS:"@, "TEXT:"@);
    reveal_strlit("DESCRIPTION:");
    reveal_strlit("TAGS:");
    reveal_strlit("TEXT:");
    assert(is_field_name(d));
    assert(is_field_name(t));
    assert(is_field_name(o));
    lemma_field_line(d, description);
    lemma_field_line(t, tags);
    lemma_field_line(o, ocr_text);
    let (a, b, c) = (field_line(d, description), field_line(t, tags), field_line(o, ocr_text));
    let all = seq![a, b, c];
    lemma_first_line(a, b + seq!['\n'] + c);
    lemma_first_line(b, c);
    crate::text::lemma_find(c, '\n');
    if crate::text::find(c, '\n') < c.len() {
        assert(c.contains(c[crate::text::find(c, '\n') as int]));
    }
    assert(crate::text::lines(c) == seq![c]);
    assert(crate::text::lines(prompted_answer(description, tags, ocr_text)) == all);
    lemma_prefixes_differ(crate::text::trim(a));
    lemma_prefixes_differ(crate::text::trim(b));
    lemma_prefixes_differ(crate::text::trim(c));
    assert(all.drop_last() == seq![a, b]);
    assert(all.drop_last().drop_last() == seq![a]);
    assert(all.drop_last().drop_last().drop_last() == Seq::<Seq<char>>::empty());
    assert(crate::text::starts_with(crate::text::trim(all[0]), d));
    assert(has_field(all, d));
    reveal_with_fuel(last_field, 4);
}

/// A text that says there is none: the word `none`, its letters small or
/// capital.
pub open spec fn is_the_word_none(s: Seq<char>) -> bool {
    &&& s.len() == 4
    &&& s[0] == 'n' || s[0] == 'N'
    &&& s[1] == 'o' || s[1] == 'O'
    &&& s[2] == 'n' || s[2] == 'N'
    &&& s[3] == 'e' || s[3] == 'E'
}

proof fn lemma_word_none(s: Seq<char>)
    ensures
        crate::text::same_ignoring_ascii_case(s, "none"@) <==> is_the_word_none(s),
{
    reveal_strlit("none");
    let word = "none"@;
    assert(word.len() == 4 && word[0] == 'n' && word[1] == 'o' && word[2] == 'n' && word[3] == 'e');
    crate::text::law_case_is_all_that_differs(s, word);
    if crate::text::same_ignoring_ascii_case(s, word) {
        assert(s[0] == s[0] && s[1] == s[1] && s[2] == s[2] && s[3] == s[3]);
    }
    if is_the_word_none(s) {
        assert forall|i: int| 0 <= i < s.len() implies {
            ||| #[trigger] s[i] == word[i]
            ||| 'A' <= s[i] <= 'Z' && word[i] as int == s[i] as int + 32
            ||| 'A' <= word[i] <= 'Z' && s[i] as int == word[i] as int + 32
        } by {
            assert(i == 0 || i == 1 || i == 2 || i == 3);
        }
    }
}

/// The three fields of an answer in the prompted format are all that is said:
/// `none` stands for no text.
pub open spec fn says_exactly(
    scene: Scene,
    description: Seq<char>,
    tags: Seq<char>,
    ocr_text: Seq<char>,
) -> bool {
    &&& scene.description == description
    &&& scene.tags == tags
    &&& is_the_word_none(ocr_text) ==> scene.ocr_text.len() == 0
    &&& !is_the_word_none(ocr_text) ==> scene.ocr_text == ocr_text
}

proof fn lemma_padded_answer(
    before: Seq<char>,
    description: Seq<char>,
    tags: Seq<char>,
    ocr_text: Seq<char>,
    behind: Seq<char>,
)
    requires
        one_clean_line(description),
        one_clean_line(tags),
        one_clean_line(ocr_text),
        description.len() > 0,
        ocr_text.len() > 0,
        crate::text::trim(before).len() == 0,
        crate::text::trim(behind).len() == 0,
    ensures
        ({
            let content = crate::text::trim(
                before + prompted_answer(description, tags, ocr_text) + behind,
            );
            content.len() > 0 && says_exactly(structured(content), description, tags, ocr_text)
        }),
{
    let s = prompted_answer(description, tags, ocr_text);
    reveal_strlit("DESCRIPTION:");
    assert(s[0] == 'D');
    lemma_trimmed_ends(ocr_text);
    assert(s.last() == ocr_text.last());
    lemma_blank(before);
    lemma_blank(behind);
    crate::text::law_trim_takes_only_white_space(before, s, behind);
    law_prompted_format_is_understood(description, tags, ocr_text);
    lemma_word_none(ocr_text);
}

proof fn lemma_blank(s: Seq<char>)
    requires
        crate::text::trim(s).len() == 0,
    ensures
        forall|i: int| 0 <= i < s.len() ==> crate::text::white_space(#[trigger] s[i]),
{
    crate::text::law_leading_characters_are_cut(s, CharClass::White);
    let t = crate::text::drop_leading(s, CharClass::White);
    crate::text::law_trailing_characters_are_cut(t, CharClass::White);
    if t.len() > 0 {
        assert(CharClass::White.has(t[0]));
    }
    assert forall|i: int| 0 <= i < s.len() implies crate::text::white_space(#[trigger] s[i]) by {
        assert(CharClass::White.has(s[i]));
    }
}

/// A model behind an OpenAI-compatible service that answers in the prompted
/// format is understood: the message of the first choice gives description, tags
/// and text, whatever white space stands round it, whatever else the reply
/// holds.
pub proof fn law_openai_answer_is_understood(
    reply: Reply,
    root: Map<Seq<char>, JsonTree>,
    choices: Seq<JsonTree>,
    choice: Map<Seq<char>, JsonTree>,
    message: Map<Seq<char>, JsonTree>,
    before: Seq<char>,
    description: Seq<char>,
    tags: Seq<char>,
    ocr_text: Seq<char>,
    behind: Seq<char>,
)
    requires
        reply is Answered,
        reply->Answered_0 is Body,
        crate::json::parsed_json(reply->Answered_0->Body_0@) == Ok::<JsonTree, Seq<char>>(
            JsonTree::Object(root),
        ),
        root.contains_pair("choices"@, JsonTree::List(choices)),
        choices.len() > 0,
        choices[0] == JsonTree::Object(choice),
        choice.contains_pair("message"@, JsonTree::Object(message)),
        message.contains_pair(
            "content"@,
            JsonTree::Text(before + prompted_answer(description, tags, ocr_text) + behind),
        ),
        one_clean_line(description),
        one_clean_line(tags),
        one_clean_line(ocr_text),
        description.len() > 0,
        ocr_text.len() > 0,
        crate::text::trim(before).len() == 0,
        crate::text::trim(behind).len() == 0,
    ensures
        says_exactly(openai_scene(reply), description, tags, ocr_text),
{
    lemma_padded_answer(before, description, tags, ocr_text, behind);
}

/// A model behind an Ollama instance that answers in the prompted format is
/// understood.
pub proof fn law_ollama_answer_is_understood(
    answer: Answer,
    root: Map<Seq<char>, JsonTree>,
    before: Seq<char>,
    description: Seq<char>,
    tags: Seq<char>,
    ocr_text: Seq<char>,
    behind: Seq<char>,
)
    requires
        answer is Body,
        crate::json::parsed_json(answer->Body_0@) == Ok::<JsonTree, Seq<char>>(
            JsonTree::Object(root),
        ),
        root.contains_pair(
            "response"@,
            JsonTree::Text(before + prompted_answer(description, tags, ocr_text) + behind),
        ),
        one_clean_line(description),
        one_clean_line(tags),
        one_clean_line(ocr_text),
        description.len() > 0,
        ocr_text.len() > 0,
        crate::text::trim(before).len() == 0,
        crate::text::trim(behind).len() == 0,
    ensures
        says_exactly(ollama_scene(answer), description, tags, ocr_text),
{
    lemma_padded_answer(before, description, tags, ocr_text, behind);
}

/// A line gives the field behind `prefix`; where `skip_nothing` is set, only one
/// that says something does.
spec fn gives_field(line: Seq<char>, prefix: Seq<char>, skip_nothing: bool) -> bool {
    let line = crate::text::trim(line);
    crate::text::starts_with(line, prefix) && !(skip_nothing && says_nothing(
        crate::text::trim(line.skip(prefix.len() as int)),
    ))
}

proof fn lemma_last_field(
    lines: Seq<Seq<char>>,
    prefix: Seq<char>,
    skip_nothing: bool,
    i: int,
)
    requires
        0 <= i < lines.len(),
        crate::text::starts_with(crate::text::trim(lines[i]), prefix),
        !(skip_nothing && says_nothing(
            crate::text::trim(crate::text::trim(lines[i]).skip(prefix.len() as int)),
        )),
        forall|k: int|
            i < k < lines.len() ==> !gives_field(#[trigger] lines[k], prefix, skip_nothing),
    ensures
        last_field(lines, prefix, skip_nothing) == crate::text::trim(
            crate::text::trim(lines[i]).skip(prefix.len() as int),
        ),
    decreases lines.len(),
{
    if i < lines.len() - 1 {
        assert(lines.last() == lines[lines.len() - 1]);
        let fewer = lines.drop_last();
        assert forall|k: int| i < k < fewer.len() implies !gives_field(
            #[trigger] fewer[k],
            prefix,
            skip_nothing,
        ) by {
            assert(fewer[k] == lines[k]);
        }
        lemma_last_field(fewer, prefix, skip_nothing, i);
    }
}

proof fn lemma_no_field(lines: Seq<Seq<char>>, prefix: Seq<char>, skip_nothing: bool)
    requires
        forall|k: int|
            0 <= k < lines.len() ==> !gives_field(#[trigger] lines[k], prefix, skip_nothing),
    ensures
        last_field(lines, prefix, skip_nothing).len() == 0,
    decreases lines.len(),
{
    if lines.len() > 0 {
        let fewer = lines.drop_last();
        assert(lines.last() == lines[lines.len() - 1]);
        assert forall|k: int| 0 <= k < fewer.len() implies !gives_field(
            #[trigger] fewer[k],
            prefix,
            skip_nothing,
        ) by {
            assert(fewer[k] == lines[k]);
        }
        lemma_no_field(fewer, prefix, skip_nothing);
    }
}

/// A line of an answer that tells of text on the photo: `TEXT:` and something
/// other than `none`.
pub open spec fn tells_text(line: Seq<char>) -> bool {
    let line = crate::text::trim(line);
    let rest = crate::text::trim(line.skip(5));
    crate::text::starts_with(line, "TEXT:"@) && rest.len() > 0 && !is_the_word_none(rest)
}

/// In an answer with a description line, whatever other lines it has, description
/// and tags are what their last lines give behind the name of the field, and the
/// text is what the last line that tells of any gives. Without such lines tags and
/// text are empty.
pub proof fn law_each_field_has_its_line(content: Seq<char>, j: int, i: int, rest: Seq<char>)
    requires
        0 <= j < crate::text::lines(content).len(),
        crate::text::starts_with(
            crate::text::trim(crate::text::lines(content)[j]),
            "DESCRIPTION:"@,
        ),
        0 <= i < crate::text::lines(content).len(),
    ensures
        ({
            let lines = crate::text::lines(content);
            let line = crate::text::trim(lines[i]);
            let begins = |k: int, prefix: Seq<char>|
                crate::text::starts_with(crate::text::trim(lines[k]), prefix);
            let scene = structured(content);
            &&& line == "DESCRIPTION:"@ + rest && (forall|k: int|
                i < k < lines.len() ==> !#[trigger] begins(k, "DESCRIPTION:"@))
                ==> scene.description == if crate::text::trim(rest).len() > 0 {
                crate::text::trim(rest)
            } else {
                crate::text::trim(content)
            }
            &&& line == "TAGS:"@ + rest && (forall|k: int|
                i < k < lines.len() ==> !#[trigger] begins(k, "TAGS:"@)) ==> scene.tags
                == crate::text::trim(rest)
            &&& line == "TEXT:"@ + rest && tells_text(lines[i]) && (forall|k: int|
                i < k < lines.len() ==> !tells_text(#[trigger] lines[k])) ==> scene.ocr_text
                == crate::text::trim(rest)
            &&& (forall|k: int| 0 <= k < lines.len() ==> !#[trigger] begins(k, "TAGS:"@))
                ==> scene.tags.len() == 0
            &&& (forall|k: int| 0 <= k < lines.len() ==> !tells_text(#[trigger] lines[k]))
                ==> scene.ocr_text.len() == 0
        }),
{
    let lines = crate::text::lines(content);
    let line = crate::text::trim(lines[i]);
    let begins = |k: int, prefix: Seq<char>|
        crate::text::starts_with(crate::text::trim(lines[k]), prefix);
    let (d, t, o) = ("DESCRIPTION:"@, "TAGS:"@, "TEXT:"@);
    reveal_strlit("TEXT:");
    assert(has_field(lines, d)) by {
        assert(crate::text::starts_with(crate::text::trim(lines[j]), d));
    }
    assert forall|prefix: Seq<char>| line == #[trigger] (prefix + rest) implies line.take(
        prefix.len() as int,
    ) == prefix && line.skip(prefix.len() as int) == rest by {
        assert(line.take(prefix.len() as int) =~= prefix);
        assert(line.skip(prefix.len() as int) =~= rest);
    }
    assert forall|l: Seq<char>| #[trigger] tells_text(l) == gives_field(l, o, true) by {
        lemma_word_none(crate::text::trim(crate::text::trim(l).skip(5)));
    }
    if line == d + rest && (forall|k: int| i < k < lines.len() ==> !#[trigger] begins(k, d)) {
        assert forall|k: int| i < k < lines.len() implies !gives_field(
            #[trigger] lines[k],
            d,
            false,
        ) by {
            assert(!begins(k, d));
        }
        lemma_last_field(lines, d, false, i);
    }
    if line == t + rest && (forall|k: int| i < k < lines.len() ==> !#[trigger] begins(k, t)) {
        assert forall|k: int| i < k < lines.len() implies !gives_field(
            #[trigger] lines[k],
            t,
            false,
        ) by {
            assert(!begins(k, t));
        }
        lemma_last_field(lines, t, false, i);
    }
    if line == o + rest && tells_text(lines[i]) && (forall|k: int|
        i < k < lines.len() ==> !tells_text(#[trigger] lines[k])) {
        assert forall|k: int| i < k < lines.len() implies !gives_field(
            #[trigger] lines[k],
            o,
            true,
        ) by {
            assert(tells_text(lines[k]) == gives_field(lines[k], o, true));
        }
        assert(tells_text(lines[i]) == gives_field(lines[i], o, true));
        lemma_last_field(lines, o, true, i);
    }
    if forall|k: int| 0 <= k < lines.len() ==> !#[trigger] begins(k, t) {
        assert forall|k: int| 0 <= k < lines.len() implies !gives_field(
            #[trigger] lines[k],
            t,
            false,
        ) by {
            assert(!begins(k, t));
        }
        lemma_no_field(lines, t, false);
    }
    if forall|k: int| 0 <= k < lines.len() ==> !tells_text(#[trigger] lines[k]) {
        assert forall|k: int| 0 <= k < lines.len() implies !gives_field(
            #[trigger] lines[k],
            o,
            true,
        ) by {
            assert(tells_text(lines[k]) == gives_field(lines[k], o, true));
        }
        lemma_no_field(lines, o, true);
    }
}

/// An answer without a description line is taken whole as the description.
pub proof fn law_unformatted_answer_is_the_description(content: Seq<char>)
    requires
        forall|k: int|
            0 <= k < crate::text::lines(content).len() ==> !crate::text::starts_with(
                crate::text::trim(#[trigger] crate::text::lines(content)[k]),
                "DESCRIPTION:"@,
            ),
    ensures
        structured(content).description == crate::text::trim(content),
        structured(content).tags.len() == 0,
        structured(content).ocr_text.len() == 0,
{
}

proof fn lemma_last_words(lines: Seq<Seq<char>>, i: int)
    requires
        0 <= i < lines.len(),
        crate::text::trim(lines[i]).len() > 0,
        forall|k: int|
            i < k < lines.len() ==> crate::text::trim(#[trigger] lines[k]).len() == 0,
    ensures
        last_words(lines) == crate::text::trim(lines[i]),
    decreases lines.len(),
{
    assert(lines.last() == lines[lines.len() - 1]);
    if i < lines.len() - 1 {
        let fewer = lines.drop_last();
        assert forall|k: int| i < k < fewer.len() implies crate::text::trim(
            #[trigger] fewer[k],
        ).len() == 0 by {
            assert(fewer[k] == lines[k]);
        }
        lemma_last_words(fewer, i);
    }
}

proof fn lemma_no_words(lines: Seq<Seq<char>>)
    requires
        forall|k: int|
            0 <= k < lines.len() ==> crate::text::trim(#[trigger] lines[k]).len() == 0,
    ensures
        last_words(lines).len() == 0,
    decreases lines.len(),
{
    if lines.len() > 0 {
        let fewer = lines.drop_last();
        assert(lines.last() == lines[lines.len() - 1]);
        assert forall|k: int| 0 <= k < fewer.len() implies crate::text::trim(
            #[trigger] fewer[k],
        ).len() == 0 by {
            assert(fewer[k] == lines[k]);
        }
        lemma_no_words(fewer);
    }
}

/// Where a model gives only its reasoning, the last line of it that is not blank is
/// shown, without the digits, dots, spaces and stars that it begins with, as long
/// as it has at most 240 bytes; of a longer one the beginning, with a mark that
/// something is left out.
pub proof fn law_reasoning_ends_with_what_is_shown(
    content: Seq<char>,
    reasoning: Seq<char>,
    i: int,
    marks: Seq<char>,
    line: Seq<char>,
)
    requires
        crate::text::trim(content).len() == 0,
        0 <= i < crate::text::lines(reasoning).len(),
        crate::text::trim(crate::text::lines(reasoning)[i]) == marks + line,
        forall|k: int|
            i < k < crate::text::lines(reasoning).len() ==> crate::text::trim(
                #[trigger] crate::text::lines(reasoning)[k],
            ).len() == 0,
        forall|k: int|
            0 <= k < marks.len() ==> ('0' <= #[trigger] marks[k] <= '9' || marks[k] == '.'
                || marks[k] == ' ' || marks[k] == '*'),
        line.len() > 0,
        !('0' <= line[0] <= '9') && line[0] != '.' && line[0] != ' ' && line[0] != '*',
    ensures
        ({
            let scene = message_scene(content, reasoning);
            let shown = scene.description;
            &&& scene.tags.len() == 0
            &&& scene.ocr_text.len() == 0
            &&& byte_len(line) <= 240 ==> shown == line
            &&& byte_len(line) > 240 ==> shown.len() > 1 && shown.last() == '\u{2026}'
                && shown.drop_last() == line.take(shown.len() - 1) && byte_len(shown.drop_last())
                <= 240 && byte_len(line.take(shown.len() as int)) > 240
        }),
{
    let lines = crate::text::lines(reasoning);
    let words = marks + line;
    lemma_last_words(lines, i);
    crate::text::law_leading_characters_are_cut(words, CharClass::ListMark);
    let c = crate::text::drop_leading(words, CharClass::ListMark);
    let n = words.len() - c.len();
    assert(words[marks.len() as int] == line[0]);
    if n > marks.len() {
        assert(CharClass::ListMark.has(words[marks.len() as int]));
    }
    if n < marks.len() {
        assert(c[0] == words[n]);
        assert(words[n] == marks[n]);
    }
    assert(c =~= line);
    assert(conclusion(reasoning) == line);
    law_cut_is_longest(line, 240);
    let k = cut(line, 240).len() as int;
    assert(MAX_CONCLUSION == 240);
    if byte_len(line) > 240 {
        let shown = fallback_text(reasoning);
        assert(shown.drop_last() == cut(line, 240));
        assert(line.take(line.len() as int) == line);
        if k >= line.len() {
            assert(cut(line, 240) == line);
        }
        if k == 0 {
            assert(line.take(1).drop_last() == Seq::<char>::empty());
            assert(byte_len(line.take(1).drop_last()) == 0);
            assert(byte_len(line.take(1)) <= 4);
        }
    }
}

/// Where a model gives neither an answer nor reasoning, that is said.
pub proof fn law_silence_is_told(content: Seq<char>, reasoning: Seq<char>)
    requires
        crate::text::trim(content).len() == 0,
        forall|k: int|
            0 <= k < crate::text::lines(reasoning).len() ==> crate::text::trim(
                #[trigger] crate::text::lines(reasoning)[k],
            ).len() == 0,
    ensures
        message_scene(content, reasoning).description
            == "[no description -- model used the full token budget on internal reasoning]"@,
        message_scene(content, reasoning).tags.len() == 0,
        message_scene(content, reasoning).ocr_text.len() == 0,
{
    lemma_no_words(crate::text::lines(reasoning));
}

proof fn lemma_bytes_add_up(a: Seq<char>, b: Seq<char>)
    ensures
        byte_len(a + b) == byte_len(a) + byte_len(b),
    decreases b.len(),
{
    if b.len() == 0 {
        assert(a + b =~= a);
    } else {
        lemma_bytes_add_up(a, b.drop_last());
        assert((a + b).drop_last() =~= a + b.drop_last());
    }
}

/// The length by which a text is cut is that of its UTF-8 form.
pub proof fn law_bytes_are_those_of_utf8(s: Seq<char>)
    ensures
        byte_len(s) == vstd::utf8::encode_utf8(s).len(),
    decreases s.len(),
{
    if s.len() > 0 {
        let (first, rest) = (seq![s[0]], s.drop_first());
        law_bytes_are_those_of_utf8(rest);
        lemma_bytes_add_up(first, rest);
        assert(first + rest =~= s);
        assert(first.drop_last() =~= Seq::<char>::empty());
        assert(byte_len(first.drop_last()) == 0);
        vstd::utf8::char_is_scalar(s[0]);
        assert(vstd::utf8::encode_scalar(s[0] as u32).len() == width(s[0]));
    }
}

/// What is known of a description, its tags and its text is what the fields hold.
pub proof fn law_view_of_a_description(r: VisionResult)
    ensures
        r@.description == r.description@,
        r@.tags == r.tags@,
        r@.ocr_text == r.ocr_text@,
{
}

/// A request that failed is described by its error between the same words, so
/// that different errors are told apart; it gives neither tags nor text. Of the
/// reason for a refusal at most 200 bytes are shown, behind the status code.
pub proof fn law_errors_are_shown(e: String, code: u16, reason: String)
    ensures
        ({
            let scene = openai_scene(Reply::Answered(Answer::Failed(e)));
            let bad = openai_scene(Reply::Answered(Answer::Unreadable(e)));
            let n = e@.len() as int;
            &&& scene.tags.len() == 0 && scene.ocr_text.len() == 0
            &&& scene.description.len() == n + 16
            &&& scene.description.take(15) == "[vision error: "@
            &&& scene.description.subrange(15, 15 + n) == e@
            &&& scene.description.last() == ']'
            &&& bad.tags.len() == 0 && bad.ocr_text.len() == 0
            &&& bad.description.len() == n + 35
            &&& bad.description.take(34) == "[vision error: bad JSON response: "@
            &&& bad.description.subrange(34, 34 + n) == e@
            &&& bad.description.last() == ']'
            &&& ollama_scene(Answer::Failed(e)) == scene
            &&& ollama_scene(Answer::Unreadable(e)) == bad
        }),
        ({
            let scene = openai_scene(Reply::Refused(code, reason));
            let status = crate::number::digits(code as nat);
            let n = status.len() as int;
            let shown = scene.description.subrange(21 + n, scene.description.len() - 1);
            &&& scene.tags.len() == 0 && scene.ocr_text.len() == 0
            &&& scene.description.len() >= n + 22
            &&& scene.description.take(20) == "[vision error: HTTP "@
            &&& scene.description.subrange(20, 20 + n) == status
            &&& scene.description[20 + n] == ' '
            &&& scene.description.last() == ']'
            &&& shown == reason@.take(shown.len() as int)
            &&& byte_len(shown) <= 200
            &&& shown.len() < reason@.len() ==> byte_len(reason@.take(shown.len() as int + 1)) > 200
        }),
{
    reveal_strlit("[vision error: ");
    reveal_strlit("[vision error: bad JSON response: ");
    reveal_strlit("bad JSON response: ");
    reveal_strlit("]");
    reveal_strlit("HTTP ");
    reveal_strlit(" ");
    reveal_strlit("[vision error: HTTP ");
    let n = e@.len() as int;
    let d = error_text(e@);
    assert(d == "[vision error: "@ + e@ + "]"@);
    assert(d.take(15) =~= "[vision error: "@);
    assert(d.subrange(15, 15 + n) =~= e@);
    let b = bad_reply_text(e@);
    assert("[vision error: "@ + "bad JSON response: "@ =~= "[vision error: bad JSON response: "@);
    assert(b.take(34) =~= "[vision error: bad JSON response: "@);
    assert(b.subrange(34, 34 + n) =~= e@);
    let status = crate::number::digits(code as nat);
    let m = status.len() as int;
    let s = cut(reason@, 200);
    law_cut_is_longest(reason@, 200);
    let r = refusal_text(code, reason@);
    assert(MAX_REASON == 200);
    assert(r =~= "[vision error: HTTP "@ + status + " "@ + s + "]"@) by {
        assert("[vision error: "@ + "HTTP "@ =~= "[vision error: HTTP "@);
    }
    assert(r.take(20) =~= "[vision error: HTTP "@);
    assert(r.subrange(20, 20 + m) =~= status);
    assert(r.subrange(21 + m, r.len() - 1) =~= s);
}

/// The request to an OpenAI-compatible service has one message, which holds the
/// prompt and, behind it, the photo; it names the model and the token limit.
pub proof fn law_openai_request_shows_the_photo(data_url: Seq<char>, settings: Settings)
    ensures
        ({
            let request = openai_request_tree(data_url, settings);
            let message = request.member("messages"@).element(0);
            let prompt = message.member("content"@).element(0);
            let photo = message.member("content"@).element(1);
            &&& request.member("model"@) == JsonTree::Text(settings.model)
            &&& request.member("max_tokens"@) == JsonTree::Number(Some(settings.max_tokens as u64))
            &&& message.member("role"@) == JsonTree::Text("user"@)
            &&& prompt.member("type"@) == JsonTree::Text("text"@)
            &&& prompt.member("text"@) == JsonTree::Text(VISION_PROMPT@)
            &&& photo.member("type"@) == JsonTree::Text("image_url"@)
            &&& photo.member("image_url"@).member("url"@) == JsonTree::Text(data_url)
            &&& request.member("messages"@).element(1) == JsonTree::Null
            &&& message.member("content"@).element(2) == JsonTree::Null
        }),
{
    reveal_strlit("model");
    reveal_strlit("max_tokens");
    reveal_strlit("messages");
    reveal_strlit("role");
    reveal_strlit("content");
    reveal_strlit("type");
    reveal_strlit("text");
    reveal_strlit("image_url");
    reveal_strlit("url");
    assert("model"@.len() == 5 && "max_tokens"@.len() == 10 && "messages"@.len() == 8);
    assert("role"@.len() == 4 && "content"@.len() == 7);
    assert("type"@[1] == 'y' && "text"@[1] == 'e' && "image_url"@.len() == 9);
}

/// The request to an Ollama instance shows the photo without what a data URL
/// begins with, asks the prompt and names the model; the reply is to come as a
/// whole.
pub proof fn law_ollama_request_shows_the_photo(
    kind: Seq<char>,
    photo: Seq<char>,
    model: Seq<char>,
)
    requires
        !kind.contains(','),
    ensures
        ({
            let request = ollama_request_tree(kind + seq![','] + photo, model);
            &&& request.member("model"@) == JsonTree::Text(model)
            &&& request.member("prompt"@) == JsonTree::Text(VISION_PROMPT@)
            &&& request.member("images"@).element(0) == JsonTree::Text(photo)
            &&& request.member("images"@).element(1) == JsonTree::Null
            &&& request.member("stream"@) == JsonTree::Bool(false)
        }),
{
    let url = kind + seq![','] + photo;
    let n = kind.len() as int;
    crate::text::lemma_find(url, ',');
    assert(url[n] == ',');
    let k = crate::text::find(url, ',') as int;
    if k < n {
        assert(url[k] == kind[k]);
        assert(kind.contains(kind[k]));
    }
    assert(url.skip(n + 1) == photo);
    reveal_strlit("model");
    reveal_strlit("prompt");
    reveal_strlit("images");
    reveal_strlit("stream");
    assert("model"@.len() == 5 && "prompt"@[0] == 'p' && "images"@[0] == 'i' && "stream"@[0]
        == 's');
    assert("prompt"@.len() == 6 && "images"@.len() == 6 && "stream"@.len() == 6);
}

/// A message that is not blank says the same, whichever service gives it,
/// whether or not it comes with reasoning; where it is blank or missing, the
/// reasoning stands in for it.
pub proof fn law_message_comes_before_reasoning(
    reply: Reply,
    answer: Answer,
    root: Map<Seq<char>, JsonTree>,
    choices: Seq<JsonTree>,
    choice: Map<Seq<char>, JsonTree>,
    message: Map<Seq<char>, JsonTree>,
    other: Map<Seq<char>, JsonTree>,
    content: Seq<char>,
    reasoning: Seq<char>,
)
    requires
        reply is Answered,
        reply->Answered_0 is Body,
        crate::json::parsed_json(reply->Answered_0->Body_0@) == Ok::<JsonTree, Seq<char>>(
            JsonTree::Object(root),
        ),
        root.contains_pair("choices"@, JsonTree::List(choices)),
        choices.len() > 0,
        choices[0] == JsonTree::Object(choice),
        choice.contains_pair("message"@, JsonTree::Object(message)),
        answer is Body,
        crate::json::parsed_json(answer->Body_0@) == Ok::<JsonTree, Seq<char>>(
            JsonTree::Object(other),
        ),
        other.contains_pair("response"@, JsonTree::Text(content)),
    ensures
        message.contains_pair("content"@, JsonTree::Text(content)) && crate::text::trim(
            content,
        ).len() > 0 ==> openai_scene(reply) == ollama_scene(answer) && openai_scene(reply)
            == structured(crate::text::trim(content)),
        (!message.contains_key("content"@) || message.contains_pair(
            "content"@,
            JsonTree::Text(content),
        ) && crate::text::trim(content).len() == 0) && message.contains_pair(
            "reasoning_content"@,
            JsonTree::Text(reasoning),
        ) ==> openai_scene(reply).description == fallback_text(reasoning) && openai_scene(
            reply,
        ).tags.len() == 0 && openai_scene(reply).ocr_text.len() == 0,
{
    crate::text::law_trim_takes_only_white_space(seq![], seq![], seq![]);
    assert(Seq::<char>::empty() + Seq::<char>::empty() + Seq::<char>::empty()
        == Seq::<char>::empty());
}

/// A reply that is not JSON is an error too, which says what was wrong with it.
pub proof fn law_unreadable_reply_is_an_error(body: Vec<u8>, e: Seq<char>)
    requires
        crate::json::parsed_json(body@) == Err::<JsonTree, Seq<char>>(e),
    ensures
        ({
            let scene = openai_scene(Reply::Answered(Answer::Body(body)));
            &&& scene.tags.len() == 0 && scene.ocr_text.len() == 0
            &&& scene.description
                == "[vision error: bad JSON response: Failed to read JSON: "@ + e + "]"@
            &&& ollama_scene(Answer::Body(body)) == scene
        }),
{
    reveal_strlit("[vision error: ");
    reveal_strlit("bad JSON response: ");
    reveal_strlit("Failed to read JSON: ");
    reveal_strlit("[vision error: bad JSON response: Failed to read JSON: ");
    assert("[vision error: "@ + ("bad JSON response: "@ + ("Failed to read JSON: "@ + e)) + "]"@
        =~= "[vision error: bad JSON response: Failed to read JSON: "@ + e + "]"@);
}

/// Slashes at the end of the address of an Ollama instance do not matter.
pub proof fn law_slashes_at_the_end_do_not_matter(endpoint: Seq<char>)
    requires
        endpoint.len() > 0,
        endpoint.last() != '/',
    ensures
        ollama_address(endpoint) == endpoint + "/api/generate"@,
        ollama_address(endpoint + seq!['/']) == endpoint + "/api/generate"@,
        ollama_address(endpoint + seq!['/', '/']) == endpoint + "/api/generate"@,
{
    let one = endpoint + seq!['/'];
    let two = endpoint + seq!['/', '/'];
    assert(one.drop_last() =~= endpoint);
    assert(two.drop_last() =~= one);
    assert(crate::text::drop_trailing(endpoint, CharClass::Slash) == endpoint);
    assert(crate::text::drop_trailing(one, CharClass::Slash) == endpoint);
}

/// A request carries the key behind the word `Bearer`, and nothing where there is
/// no key.
pub proof fn law_key_goes_with_the_request(api_key: Seq<char>)
    ensures
        bearer(api_key) is Some <==> api_key.len() > 0,
        bearer(api_key) matches Some(t) ==> t.take(7) == "Bearer "@ && t.skip(7) == api_key,
{
    reveal_strlit("Bearer ");
    assert(("Bearer "@ + api_key).take(7) =~= "Bearer "@);
    assert(("Bearer "@ + api_key).skip(7) =~= api_key);
}

} // verus!
