//! Provider, model and key of the vision service, from several sources.

use crate::number::parse_number;
use crate::text::{chars_of, find_from, lines_of, same_text, text_of, trimmed};
use vstd::prelude::*;

verus! {

/// How the vision service is reached. Empty fields and a zero mean "not set".
#[derive(Debug, Clone)]
pub struct VisionConfig {
    pub provider: String,
    pub endpoint: String,
    pub model: String,
    pub api_key: String,
    pub max_tokens: u32,
}

/// What a `VisionConfig` holds.
pub struct Settings {
    pub provider: Seq<char>,
    pub endpoint: Seq<char>,
    pub model: Seq<char>,
    pub api_key: Seq<char>,
    pub max_tokens: u32,
}

impl View for VisionConfig {
    type V = Settings;

    open spec fn view(&self) -> Settings {
        Settings {
            provider: self.provider@,
            endpoint: self.endpoint@,
            model: self.model@,
            api_key: self.api_key@,
            max_tokens: self.max_tokens,
        }
    }
}

/// Nothing is set.
pub open spec fn unset() -> Settings {
    Settings { provider: seq![], endpoint: seq![], model: seq![], api_key: seq![], max_tokens: 0 }
}

impl Default for VisionConfig {
    fn default() -> (c: VisionConfig)
        ensures
            c@ == unset(),
    {
        VisionConfig {
            provider: String::new(),
            endpoint: String::new(),
            model: String::new(),
            api_key: String::new(),
            max_tokens: 0,
        }
    }
}

/// An example of the configuration file.
pub const CONFIG_EXAMPLE: &'static str = "# cs-imageindex.cfg -- own standalone config, independent of any other tool.\nprovider   = openai-compatible\nendpoint   = https://api.deepseek.com/chat/completions\nmodel      = deepseek-v4-flash-vision-exp\napi_key    = sk-...\nmax_tokens = 600\n";

/// The token limit where nothing sets one.
pub const DEFAULT_MAX_TOKENS: u32 = 600;

/// The key and the value of a line `key = value`; blank lines, comments and
/// lines without an equals sign have none.
pub open spec fn entry(line: Seq<char>) -> Option<(Seq<char>, Seq<char>)> {
    let line = crate::text::trim(line);
    let n = crate::text::find(line, '=');
    if line.len() == 0 || line[0] == '#' || n >= line.len() {
        None
    } else {
        Some(
            (
                crate::text::trim(line.take(n as int)),
                crate::text::trim(line.skip(n as int + 1)),
            ),
        )
    }
}

/// The value of `key`: that of the last line that sets it.
pub open spec fn setting(lines: Seq<Seq<char>>, key: Seq<char>) -> Option<Seq<char>>
    decreases lines.len(),
{
    if lines.len() == 0 {
        None
    } else {
        match entry(lines.last()) {
            Some((k, v)) => if k == key {
                Some(v)
            } else {
                setting(lines.drop_last(), key)
            },
            None => setting(lines.drop_last(), key),
        }
    }
}

/// The value of `key`, empty where it is not set.
pub open spec fn setting_or_empty(content: Seq<char>, key: Seq<char>) -> Seq<char> {
    match setting(crate::text::lines(content), key) {
        Some(v) => v,
        None => seq![],
    }
}

/// A token limit as text: the number it writes, or `fallback` where it writes
/// none.
pub open spec fn token_limit(text: Option<Seq<char>>, fallback: u32) -> u32 {
    match text {
        Some(v) => match crate::number::number(v, u32::MAX as nat) {
            Some(n) => n as u32,
            None => fallback,
        },
        None => fallback,
    }
}

/// The settings of a configuration file in the tool's own format.
pub open spec fn own_settings(content: Seq<char>) -> Settings {
    Settings {
        provider: setting_or_empty(content, "provider"@),
        endpoint: setting_or_empty(content, "endpoint"@),
        model: setting_or_empty(content, "model"@),
        api_key: setting_or_empty(content, "api_key"@),
        max_tokens: token_limit(
            setting(crate::text::lines(content), "max_tokens"@),
            DEFAULT_MAX_TOKENS,
        ),
    }
}

/// The settings of the second slot of a `cs-aihelp.cfg`.
pub open spec fn legacy_settings(content: Seq<char>) -> Settings {
    Settings {
        provider: "openai-compatible"@,
        endpoint: setting_or_empty(content, "endpoint2"@),
        model: setting_or_empty(content, "model2"@),
        api_key: setting_or_empty(content, "api_key2"@),
        max_tokens: DEFAULT_MAX_TOKENS,
    }
}

/// `a` where it is not empty, else `b`.
pub open spec fn or_else(a: Seq<char>, b: Seq<char>) -> Seq<char> {
    if a.len() > 0 {
        a
    } else {
        b
    }
}

/// Field by field, what `a` sets, else what `b` sets.
pub open spec fn merged(a: Settings, b: Settings) -> Settings {
    Settings {
        provider: or_else(a.provider, b.provider),
        endpoint: or_else(a.endpoint, b.endpoint),
        model: or_else(a.model, b.model),
        api_key: or_else(a.api_key, b.api_key),
        max_tokens: if a.max_tokens != 0 {
            a.max_tokens
        } else {
            b.max_tokens
        },
    }
}

/// A service can be called: endpoint and model are set.
pub open spec fn usable(s: Settings) -> bool {
    s.endpoint.len() > 0 && s.model.len() > 0
}

/// The settings that count: those of the command line, then of the
/// environment, then of the configuration file; where these leave the service
/// unusable, then those of the legacy file. There is always a token limit.
pub open spec fn resolved(
    cli: Settings,
    env: Settings,
    own: Option<Settings>,
    legacy: Option<Settings>,
) -> Settings {
    let first = merged(
        merged(cli, env),
        match own {
            Some(s) => s,
            None => unset(),
        },
    );
    let all = match legacy {
        Some(s) => if usable(first) {
            first
        } else {
            merged(first, s)
        },
        None => first,
    };
    Settings {
        max_tokens: if all.max_tokens == 0 {
            DEFAULT_MAX_TOKENS
        } else {
            all.max_tokens
        },
        ..all
    }
}

fn entry_of(line: &str) -> (r: Option<(String, String)>)
    ensures
        match r {
            Some((k, v)) => entry(line@) == Some((k@, v@)),
            None => entry(line@) is None,
        },
{
    let line = trimmed(line);
    let v = chars_of(&line);
    if v.len() == 0 || v[0] == '#' {
        return None;
    }
    proof {
        assert(v@.skip(0) == v@);
    }
    let n = find_from(&v, 0, '=');
    if n >= v.len() {
        return None;
    }
    let key = text_of(&v, 0, n);
    let value = text_of(&v, n + 1, v.len());
    proof {
        assert(key@ == line@.take(n as int));
        assert(value@ == line@.skip(n + 1));
    }
    Some((trimmed(&key), trimmed(&value)))
}

/// The value of `key` among the lines of a configuration file.
fn lookup(lines: &Vec<String>, key: &str) -> (r: Option<String>)
    ensures
        match r {
            Some(v) => setting(crate::text::views(lines@), key@) == Some(v@),
            None => setting(crate::text::views(lines@), key@) is None,
        },
{
    let ghost all = crate::text::views(lines@);
    let mut i = lines.len();
    proof {
        assert(all.take(i as int) == all);
    }
    while i > 0
        invariant
            all == crate::text::views(lines@),
            i <= lines@.len(),
            setting(all.take(i as int), key@) == setting(all, key@),
        decreases i,
    {
        proof {
            assert(all.take(i as int).last() == lines@[i - 1]@);
            assert(all.take(i as int).drop_last() == all.take(i - 1));
        }
        if let Some((k, v)) = entry_of(&lines[i - 1]) {
            if same_text(&k, key) {
                return Some(v);
            }
        }
        i = i - 1;
    }
    proof {
        assert(all.take(0).len() == 0);
    }
    None
}

fn lookup_or_empty(lines: &Vec<String>, key: &str) -> (r: String)
    ensures
        r@ == match setting(crate::text::views(lines@), key@) {
            Some(v) => v,
            None => seq![],
        },
{
    match lookup(lines, key) {
        Some(v) => v,
        None => String::new(),
    }
}

fn limit_of(text: Option<String>, fallback: u32) -> (n: u32)
    ensures
        n == token_limit(crate::geocode::optional_view(text), fallback),
{
    match text {
        Some(v) => match parse_number(&v, u32::MAX as u64) {
            Some(n) => n as u32,
            None => fallback,
        },
        None => fallback,
    }
}

fn or_text(a: String, b: String) -> (r: String)
    ensures
        r@ == or_else(a@, b@),
{
    if a.as_str().is_empty() {
        b
    } else {
        a
    }
}

impl VisionConfig {
    /// The settings in the content of a configuration file in the tool's own
    /// format.
    pub fn from_own_file(content: &str) -> (c: VisionConfig)
        ensures
            c@ == own_settings(content@),
    {
        let lines = lines_of(content);
        VisionConfig {
            provider: lookup_or_empty(&lines, "provider"),
            endpoint: lookup_or_empty(&lines, "endpoint"),
            model: lookup_or_empty(&lines, "model"),
            api_key: lookup_or_empty(&lines, "api_key"),
            max_tokens: limit_of(lookup(&lines, "max_tokens"), DEFAULT_MAX_TOKENS),
        }
    }

    /// The settings in the content of a `cs-aihelp.cfg`.
    pub fn from_legacy_cs_aihelp(content: &str) -> (c: VisionConfig)
        ensures
            c@ == legacy_settings(content@),
    {
        let lines = lines_of(content);
        VisionConfig {
            provider: "openai-compatible".to_owned(),
            endpoint: lookup_or_empty(&lines, "endpoint2"),
            model: lookup_or_empty(&lines, "model2"),
            api_key: lookup_or_empty(&lines, "api_key2"),
            max_tokens: DEFAULT_MAX_TOKENS,
        }
    }

    /// The settings that five environment variables make, each of which may
    /// be missing.
    pub fn from_env(
        provider: Option<String>,
        endpoint: Option<String>,
        model: Option<String>,
        api_key: Option<String>,
        max_tokens: Option<String>,
    ) -> (c: VisionConfig)
        ensures
            c.provider@ == value_or_empty(provider),
            c.endpoint@ == value_or_empty(endpoint),
            c.model@ == value_or_empty(model),
            c.api_key@ == value_or_empty(api_key),
            c.max_tokens == token_limit(crate::geocode::optional_view(max_tokens), 0),
            c@ == env_settings(
                crate::geocode::optional_view(provider),
                crate::geocode::optional_view(endpoint),
                crate::geocode::optional_view(model),
                crate::geocode::optional_view(api_key),
                crate::geocode::optional_view(max_tokens),
            ),
    {
        VisionConfig {
            provider: text_or_empty(provider),
            endpoint: text_or_empty(endpoint),
            model: text_or_empty(model),
            api_key: text_or_empty(api_key),
            max_tokens: limit_of(max_tokens, 0),
        }
    }

    /// The fields of `self` that are set, else those of `other`.
    pub fn merged_over(self, other: VisionConfig) -> (c: VisionConfig)
        ensures
            c@ == merged(self@, other@),
    {
        VisionConfig {
            provider: or_text(self.provider, other.provider),
            endpoint: or_text(self.endpoint, other.endpoint),
            model: or_text(self.model, other.model),
            api_key: or_text(self.api_key, other.api_key),
            max_tokens: if self.max_tokens == 0 {
                other.max_tokens
            } else {
                self.max_tokens
            },
        }
    }

    /// Whether endpoint and model are set.
    pub fn is_usable(&self) -> (r: bool)
        ensures
            r == usable(self@),
    {
        !self.endpoint.as_str().is_empty() && !self.model.as_str().is_empty()
    }
}

/// What an optional text holds, empty where it is missing.
pub open spec fn value_or_empty(s: Option<String>) -> Seq<char> {
    match s {
        Some(s) => s@,
        None => seq![],
    }
}

fn text_or_empty(s: Option<String>) -> (r: String)
    ensures
        r@ == value_or_empty(s),
{
    match s {
        Some(s) => s,
        None => String::new(),
    }
}

/// What an optional configuration holds.
pub open spec fn optional_settings(c: Option<VisionConfig>) -> Option<Settings> {
    match c {
        Some(c) => Some(c@),
        None => None,
    }
}

/// The configuration that counts, from those of the command line, the
/// environment, the configuration file and the legacy file. A file that was
/// not given or could not be read is missing.
pub fn resolve_vision_config(
    cli: VisionConfig,
    env: VisionConfig,
    own: Option<VisionConfig>,
    legacy: Option<VisionConfig>,
) -> (c: VisionConfig)
    ensures
        c@ == resolved(cli@, env@, optional_settings(own), optional_settings(legacy)),
{
    let own = match own {
        Some(c) => c,
        None => VisionConfig::default(),
    };
    let mut c = cli.merged_over(env).merged_over(own);
    if let Some(l) = legacy {
        if !c.is_usable() {
            c = c.merged_over(l);
        }
    }
    if c.max_tokens == 0 {
        c.max_tokens = DEFAULT_MAX_TOKENS;
    }
    c
}

/// Merging is associative, and an unset configuration changes nothing: the
/// first source that sets a field wins.
pub proof fn law_first_source_wins(a: Settings, b: Settings, c: Settings)
    ensures
        merged(merged(a, b), c) == merged(a, merged(b, c)),
        merged(a, unset()) == a,
        merged(unset(), a) == a,
        merged(a, a) == a,
{
    assert(a.provider.len() == 0 ==> a.provider == Seq::<char>::empty());
    assert(a.endpoint.len() == 0 ==> a.endpoint == Seq::<char>::empty());
    assert(a.model.len() == 0 ==> a.model == Seq::<char>::empty());
    assert(a.api_key.len() == 0 ==> a.api_key == Seq::<char>::empty());
}

/// A usable configuration stays usable, with the same endpoint and model,
/// whatever it is merged over.
pub proof fn law_usable_stays_usable(a: Settings, b: Settings)
    requires
        usable(a),
    ensures
        usable(merged(a, b)),
        merged(a, b).endpoint == a.endpoint,
        merged(a, b).model == a.model,
{
}

/// The legacy file counts only where the other sources leave the service
/// unusable, and the token limit is never zero.
pub proof fn law_legacy_is_the_last_resort(
    cli: Settings,
    env: Settings,
    own: Option<Settings>,
    legacy: Settings,
)
    ensures
        usable(resolved(cli, env, own, None)) ==> resolved(cli, env, own, Some(legacy))
            == resolved(cli, env, own, None),
        resolved(cli, env, own, Some(legacy)).max_tokens > 0,
        resolved(cli, env, own, None).max_tokens > 0,
{
}

/// Of two configurations merged, each field is that of the first where the first
/// sets it, and that of the second where it does not.
pub proof fn law_set_fields_win(a: Settings, b: Settings)
    ensures
        merged(a, b).provider == if a.provider.len() > 0 { a.provider } else { b.provider },
        merged(a, b).endpoint == if a.endpoint.len() > 0 { a.endpoint } else { b.endpoint },
        merged(a, b).model == if a.model.len() > 0 { a.model } else { b.model },
        merged(a, b).api_key == if a.api_key.len() > 0 { a.api_key } else { b.api_key },
        merged(a, b).max_tokens == if a.max_tokens > 0 { a.max_tokens } else { b.max_tokens },
{
}

/// The command line counts before the environment and that before the
/// configuration file, field by field. The legacy file fills what these leave
/// open only where they leave the endpoint or the model open. A token limit that
/// nothing sets is 600.
pub proof fn law_sources_count_in_their_order(
    cli: Settings,
    env: Settings,
    own: Settings,
    legacy: Settings,
)
    ensures
        ({
            let all = resolved(cli, env, Some(own), Some(legacy));
            let first = |a: Seq<char>, b: Seq<char>, c: Seq<char>|
                if a.len() > 0 {
                    a
                } else if b.len() > 0 {
                    b
                } else {
                    c
                };
            let endpoint = first(cli.endpoint, env.endpoint, own.endpoint);
            let model = first(cli.model, env.model, own.model);
            let complete = endpoint.len() > 0 && model.len() > 0;
            let then = |a: Seq<char>, b: Seq<char>|
                if complete || a.len() > 0 {
                    a
                } else {
                    b
                };
            &&& all.endpoint == then(endpoint, legacy.endpoint)
            &&& all.model == then(model, legacy.model)
            &&& all.provider == then(
                first(cli.provider, env.provider, own.provider),
                legacy.provider,
            )
            &&& all.api_key == then(first(cli.api_key, env.api_key, own.api_key), legacy.api_key)
            &&& all.max_tokens == if cli.max_tokens > 0 {
                cli.max_tokens
            } else if env.max_tokens > 0 {
                env.max_tokens
            } else if own.max_tokens > 0 {
                own.max_tokens
            } else if !complete && legacy.max_tokens > 0 {
                legacy.max_tokens
            } else {
                600
            }
        }),
        resolved(cli, env, None, None) == resolved(cli, env, Some(unset()), Some(unset())),
        usable(own) <==> own.endpoint.len() > 0 && own.model.len() > 0,
{
    let a = merged(merged(cli, env), unset());
    assert(merged(a, unset()).provider =~= a.provider);
    assert(merged(a, unset()).endpoint =~= a.endpoint);
    assert(merged(a, unset()).model =~= a.model);
    assert(merged(a, unset()).api_key =~= a.api_key);
}

proof fn lemma_entry(key: Seq<char>, value: Seq<char>)
    requires
        key.len() > 0,
        crate::text::trim(key) == key,
        crate::text::trim(value) == value,
        !key.contains('='),
        key[0] != '#',
    ensures
        entry(key + seq![' ', '=', ' '] + value) == Some((key, value)),
        entry(key + seq!['='] + value) == Some((key, value)),
{
    let none = Seq::<char>::empty();
    let blank = seq![' '];
    lemma_ends(key);
    lemma_ends(value);
    let n = key.len() as int;
    assert forall|i: int| 0 <= i < n implies #[trigger] key[i] != '=' by {
        assert(key.contains(key[i]));
    }
    // With spaces round the sign.
    let line = key + seq![' ', '=', ' '] + value;
    let s = if value.len() > 0 {
        line
    } else {
        key + seq![' ', '=']
    };
    crate::text::law_trim_takes_only_white_space(
        none,
        s,
        if value.len() > 0 {
            none
        } else {
            blank
        },
    );
    assert(none + s + (if value.len() > 0 {
        none
    } else {
        blank
    }) =~= line);
    assert(crate::text::trim(line) == s);
    crate::text::lemma_find(s, '=');
    assert(s[n + 1] == '=');
    let k = crate::text::find(s, '=') as int;
    if k < n {
        assert(s[k] == key[k]);
    }
    assert(s[n] == ' ');
    assert(k == n + 1);
    assert(s[0] == key[0]);
    crate::text::law_trim_takes_only_white_space(none, key, blank);
    assert(none + key + blank =~= s.take(n + 1));
    if value.len() > 0 {
        crate::text::law_trim_takes_only_white_space(blank, value, none);
        assert(blank + value + none =~= s.skip(n + 2));
    } else {
        assert(s.skip(n + 2) =~= value);
    }
    // Without.
    let tight = key + seq!['='] + value;
    assert(tight[0] == key[0]);
    assert(tight.last() == if value.len() > 0 {
        value.last()
    } else {
        '='
    });
    crate::text::law_trim_takes_only_white_space(none, tight, none);
    assert(none + tight + none =~= tight);
    crate::text::lemma_find(tight, '=');
    assert(tight[n] == '=');
    let j = crate::text::find(tight, '=') as int;
    if j < n {
        assert(tight[j] == key[j]);
    }
    assert(tight.take(n) =~= key);
    assert(tight.skip(n + 1) =~= value);
}

proof fn lemma_ends(s: Seq<char>)
    requires
        crate::text::trim(s) == s,
    ensures
        s.len() > 0 ==> !crate::text::white_space(s[0]) && !crate::text::white_space(s.last()),
{
    crate::text::law_trimmed_text_is_a_part(s);
}

proof fn lemma_other_line(line: Seq<char>, key: Seq<char>)
    requires
        !crate::text::starts_with(crate::text::trim(line), key),
    ensures
        entry(line) matches Some(e) ==> e.0 != key,
{
    let t = crate::text::trim(line);
    let n = crate::text::find(t, '=') as int;
    crate::text::lemma_find(t, '=');
    if entry(line) is Some {
        let k = t.take(n);
        crate::text::law_trimmed_text_is_a_part(line);
        crate::text::law_leading_characters_are_cut(k, crate::text::CharClass::White);
        let d = crate::text::drop_leading(k, crate::text::CharClass::White);
        crate::text::law_trailing_characters_are_cut(d, crate::text::CharClass::White);
        let c = crate::text::trim(k);
        if k.len() > 0 {
            assert(k[0] == t[0]);
            if d.len() < k.len() {
                assert(crate::text::CharClass::White.has(k[0]));
            }
            assert(d == k);
        }
        assert(c == k.take(c.len() as int));
        assert(t.take(c.len() as int) =~= c);
    }
}

proof fn lemma_setting(lines: Seq<Seq<char>>, i: int, key: Seq<char>, value: Seq<char>)
    requires
        0 <= i < lines.len(),
        entry(lines[i]) == Some((key, value)),
        forall|k: int|
            i < k < lines.len() ==> !crate::text::starts_with(
                crate::text::trim(#[trigger] lines[k]),
                key,
            ),
    ensures
        setting(lines, key) == Some(value),
    decreases lines.len(),
{
    if i < lines.len() - 1 {
        let fewer = lines.drop_last();
        assert(lines.last() == lines[lines.len() - 1]);
        lemma_other_line(lines.last(), key);
        assert forall|k: int| i < k < fewer.len() implies !crate::text::starts_with(
            crate::text::trim(#[trigger] fewer[k]),
            key,
        ) by {
            assert(fewer[k] == lines[k]);
        }
        assert(fewer[i] == lines[i]);
        lemma_setting(fewer, i, key, value);
    }
}

proof fn lemma_not_set(lines: Seq<Seq<char>>, key: Seq<char>)
    requires
        forall|k: int|
            0 <= k < lines.len() ==> !crate::text::starts_with(
                crate::text::trim(#[trigger] lines[k]),
                key,
            ),
    ensures
        setting(lines, key) is None,
    decreases lines.len(),
{
    if lines.len() > 0 {
        let fewer = lines.drop_last();
        assert(lines.last() == lines[lines.len() - 1]);
        lemma_other_line(lines.last(), key);
        assert forall|k: int| 0 <= k < fewer.len() implies !crate::text::starts_with(
            crate::text::trim(#[trigger] fewer[k]),
            key,
        ) by {
            assert(fewer[k] == lines[k]);
        }
        lemma_not_set(fewer, key);
    }
}

/// A line `key = value` of a configuration file, with any white space at its ends
/// and with or without spaces round the sign, sets the field with that name, unless
/// a later line does; a line `key2 = value` of a legacy file sets the
/// field of the second slot. A limit that is not a number counts as 600.
pub proof fn law_lines_set_their_fields(
    content: Seq<char>,
    i: int,
    key: Seq<char>,
    value: Seq<char>,
)
    requires
        0 <= i < crate::text::lines(content).len(),
        key.len() > 0,
        crate::text::trim(key) == key,
        crate::text::trim(value) == value,
        !key.contains('='),
        key[0] != '#',
        crate::text::trim(crate::text::lines(content)[i]) == crate::text::trim(
            key + seq![' ', '=', ' '] + value,
        ) || crate::text::trim(crate::text::lines(content)[i]) == crate::text::trim(
            key + seq!['='] + value,
        ),
        forall|k: int|
            i < k < crate::text::lines(content).len() ==> !crate::text::starts_with(
                crate::text::trim(#[trigger] crate::text::lines(content)[k]),
                key,
            ),
    ensures
        key == "provider"@ ==> own_settings(content).provider == value,
        key == "endpoint"@ ==> own_settings(content).endpoint == value,
        key == "model"@ ==> own_settings(content).model == value,
        key == "api_key"@ ==> own_settings(content).api_key == value,
        key == "max_tokens"@ ==> own_settings(content).max_tokens == (match crate::number::number(
            value,
            u32::MAX as nat,
        ) {
            Some(n) => n as u32,
            None => 600,
        }),
        key == "endpoint2"@ ==> legacy_settings(content).endpoint == value,
        key == "model2"@ ==> legacy_settings(content).model == value,
        key == "api_key2"@ ==> legacy_settings(content).api_key == value,
        legacy_settings(content).provider == "openai-compatible"@,
        legacy_settings(content).max_tokens == 600,
{
    lemma_entry(key, value);
    lemma_setting(crate::text::lines(content), i, key, value);
}

/// A field that no line names is not set, and a missing limit is 600.
pub proof fn law_missing_lines_leave_fields_unset(content: Seq<char>, key: Seq<char>)
    requires
        forall|k: int|
            0 <= k < crate::text::lines(content).len() ==> !crate::text::starts_with(
                crate::text::trim(#[trigger] crate::text::lines(content)[k]),
                key,
            ),
    ensures
        key == "provider"@ ==> own_settings(content).provider.len() == 0,
        key == "endpoint"@ ==> own_settings(content).endpoint.len() == 0,
        key == "model"@ ==> own_settings(content).model.len() == 0,
        key == "api_key"@ ==> own_settings(content).api_key.len() == 0,
        key == "max_tokens"@ ==> own_settings(content).max_tokens == 600,
        key == "endpoint2"@ ==> legacy_settings(content).endpoint.len() == 0,
        key == "model2"@ ==> legacy_settings(content).model.len() == 0,
        key == "api_key2"@ ==> legacy_settings(content).api_key.len() == 0,
{
    lemma_not_set(crate::text::lines(content), key);
}

/// A comment sets nothing, nor does a line without an equals sign.
pub proof fn law_comments_set_nothing(line: Seq<char>)
    ensures
        crate::text::trim(line).len() > 0 && crate::text::trim(line)[0] == '#' ==> entry(
            line,
        ) is None,
        !crate::text::trim(line).contains('=') ==> entry(line) is None,
{
    let t = crate::text::trim(line);
    crate::text::lemma_find(t, '=');
    let n = crate::text::find(t, '=') as int;
    if n < t.len() {
        assert(t.contains(t[n]));
    }
}

/// A text that is there, else the empty one.
pub open spec fn text_or_blank(s: Option<Seq<char>>) -> Seq<char> {
    match s {
        Some(s) => s,
        None => seq![],
    }
}

/// The settings that environment variables make.
pub open spec fn env_settings(
    provider: Option<Seq<char>>,
    endpoint: Option<Seq<char>>,
    model: Option<Seq<char>>,
    api_key: Option<Seq<char>>,
    max_tokens: Option<Seq<char>>,
) -> Settings {
    Settings {
        provider: text_or_blank(provider),
        endpoint: text_or_blank(endpoint),
        model: text_or_blank(model),
        api_key: text_or_blank(api_key),
        max_tokens: token_limit(max_tokens, 0),
    }
}

/// Each environment variable sets its own field and no other; a limit that is not
/// a number sets none.
pub proof fn law_variables_set_their_fields(
    a: Option<Seq<char>>,
    b: Option<Seq<char>>,
    c: Option<Seq<char>>,
    d: Option<Seq<char>>,
    e: Option<Seq<char>>,
    s: Seq<char>,
    n: u32,
)
    ensures
        env_settings(Some(s), b, c, d, e).provider == s,
        env_settings(a, Some(s), c, d, e).endpoint == s,
        env_settings(a, b, Some(s), d, e).model == s,
        env_settings(a, b, c, Some(s), e).api_key == s,
        env_settings(a, b, c, d, Some(crate::number::digits(n as nat))).max_tokens == n,
        crate::number::number(s, u32::MAX as nat) is None ==> env_settings(
            a,
            b,
            c,
            d,
            Some(s),
        ).max_tokens == 0,
        env_settings(None, None, None, None, None) == unset(),
{
    crate::number::law_written_number_reads_back(n as nat, 0, u32::MAX as nat);
}

/// What is known of a configuration is what its fields hold, each under its own
/// name.
pub proof fn law_view_of_a_configuration(c: VisionConfig)
    ensures
        c@.provider == c.provider@,
        c@.endpoint == c.endpoint@,
        c@.model == c.model@,
        c@.api_key == c.api_key@,
        c@.max_tokens == c.max_tokens,
{
}

/// A file that is missing counts as one that sets nothing.
pub proof fn law_missing_files_set_nothing(
    cli: Settings,
    env: Settings,
    own: Option<Settings>,
    legacy: Option<Settings>,
)
    ensures
        resolved(cli, env, None, legacy) == resolved(cli, env, Some(unset()), legacy),
        resolved(cli, env, own, None) == resolved(cli, env, own, Some(unset())),
{
    let a = merged(
        merged(cli, env),
        match own {
            Some(s) => s,
            None => unset(),
        },
    );
    assert(merged(a, unset()).provider =~= a.provider);
    assert(merged(a, unset()).endpoint =~= a.endpoint);
    assert(merged(a, unset()).model =~= a.model);
    assert(merged(a, unset()).api_key =~= a.api_key);
}

} // verus!
