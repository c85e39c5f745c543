//! Videos: what their container tells, and the frame that stands for them.

use crate::ieee::less64;
use crate::json::{elements, member, number, parse, text, JsonTree};
use crate::number::decimal;
use crate::text::{
    chars_of, joined, same_text, same_text_ignoring_ascii_case, text_of, without_trailing,
    CharClass,
};
use vstd::arithmetic::power2::{lemma_pow2_pos, lemma_pow2_unfold};
use vstd::prelude::*;

verus! {

/// What the container of a video tells of it. Durations and coordinates are
/// decimal numbers as text.
#[derive(Debug, Clone)]
pub struct VideoMeta {
    pub creation_time: Option<String>,
    pub duration_secs: Option<String>,
    pub gps: Option<(String, String)>,
    pub width: Option<u32>,
    pub height: Option<u32>,
}

/// What a `VideoMeta` holds.
pub struct Container {
    pub creation_time: Option<Seq<char>>,
    pub duration_secs: Option<Seq<char>>,
    pub gps: Option<(Seq<char>, Seq<char>)>,
    pub width: Option<u32>,
    pub height: Option<u32>,
}

/// What an optional pair of texts holds.
pub open spec fn optional_pair(p: Option<(String, String)>) -> Option<(Seq<char>, Seq<char>)> {
    match p {
        Some((a, b)) => Some((a@, b@)),
        None => None,
    }
}

impl View for VideoMeta {
    type V = Container;

    open spec fn view(&self) -> Container {
        Container {
            creation_time: crate::geocode::optional_view(self.creation_time),
            duration_secs: crate::geocode::optional_view(self.duration_secs),
            gps: optional_pair(self.gps),
            width: self.width,
            height: self.height,
        }
    }
}

/// Nothing is told.
pub open spec fn untold() -> Container {
    Container { creation_time: None, duration_secs: None, gps: None, width: None, height: None }
}

impl Default for VideoMeta {
    fn default() -> (m: VideoMeta)
        ensures
            m@ == untold(),
    {
        VideoMeta {
            creation_time: None,
            duration_secs: None,
            gps: None,
            width: None,
            height: None,
        }
    }
}

/// `c` is a plus or a minus sign.
pub open spec fn is_sign(c: char) -> bool {
    c == '+' || c == '-'
}

/// A text without the sign that it may begin with.
pub open spec fn without_sign(s: Seq<char>) -> Seq<char> {
    if s.len() > 0 && is_sign(s[0]) {
        s.skip(1)
    } else {
        s
    }
}

/// Digits with at most one dot among them, at least one digit.
pub open spec fn is_mantissa(s: Seq<char>) -> bool {
    let dot = crate::text::find(s, '.') as int;
    if dot < s.len() {
        s.len() > 1 && crate::number::all_digits(s.take(dot)) && crate::number::all_digits(
            s.skip(dot + 1),
        )
    } else {
        s.len() > 0 && crate::number::all_digits(s)
    }
}

/// At least one digit behind an optional sign.
pub open spec fn is_power(s: Seq<char>) -> bool {
    let d = without_sign(s);
    d.len() > 0 && crate::number::all_digits(d)
}

/// Where the first letter `e`, small or capital, stands; the length where there
/// is none.
pub open spec fn find_e(s: Seq<char>) -> nat
    decreases s.len(),
{
    if s.len() == 0 || s[0] == 'e' || s[0] == 'E' {
        0
    } else {
        1 + find_e(s.skip(1))
    }
}

/// A decimal number as Rust reads it: an optional sign, then `inf`, `infinity`
/// or `nan` in any case, or digits with an optional dot and an optional power of
/// ten.
pub open spec fn is_decimal(s: Seq<char>) -> bool {
    let t = without_sign(s);
    let e = find_e(t) as int;
    ||| crate::text::same_ignoring_ascii_case(t, "inf"@)
    ||| crate::text::same_ignoring_ascii_case(t, "infinity"@)
    ||| crate::text::same_ignoring_ascii_case(t, "nan"@)
    ||| is_mantissa(t.take(e)) && (e < t.len() ==> is_power(t.skip(e + 1)))
}

fn digits_only(v: &[char], from: usize, to: usize) -> (r: bool)
    requires
        from <= to <= v@.len(),
    ensures
        r == crate::number::all_digits(v@.subrange(from as int, to as int)),
{
    let ghost s = v@.subrange(from as int, to as int);
    for i in from..to
        invariant
            from <= to <= v@.len(),
            s == v@.subrange(from as int, to as int),
            forall|k: int| 0 <= k < i - from ==> crate::number::is_digit(#[trigger] s[k]),
    {
        if !('0' <= v[i] && v[i] <= '9') {
            proof {
                assert(!crate::number::is_digit(s[i - from]));
            }
            return false;
        }
    }
    true
}

fn after_sign(v: &[char], from: usize, to: usize) -> (i: usize)
    requires
        from <= to <= v@.len(),
    ensures
        from <= i <= to,
        v@.subrange(i as int, to as int) == without_sign(v@.subrange(from as int, to as int)),
{
    if from < to && (v[from] == '+' || v[from] == '-') {
        proof {
            assert(v@.subrange(from as int, to as int).skip(1) == v@.subrange(
                from + 1,
                to as int,
            ));
        }
        from + 1
    } else {
        from
    }
}

fn mantissa(v: &[char], from: usize, to: usize) -> (r: bool)
    requires
        from <= to <= v@.len(),
    ensures
        r == is_mantissa(v@.subrange(from as int, to as int)),
{
    let ghost s = v@.subrange(from as int, to as int);
    let mut dot = from;
    proof {
        assert(s.skip(0) == s);
    }
    while dot < to && v[dot] != '.'
        invariant
            from <= dot <= to <= v@.len(),
            s == v@.subrange(from as int, to as int),
            (dot - from) + crate::text::find(s.skip(dot - from), '.') == crate::text::find(s, '.'),
        decreases to - dot,
    {
        proof {
            assert(s.skip(dot - from).drop_first() == s.skip(dot - from + 1));
        }
        dot = dot + 1;
    }
    proof {
        assert(s.take(dot - from) == v@.subrange(from as int, dot as int));
        if dot < to {
            assert(s.skip(dot - from + 1) == v@.subrange(dot + 1, to as int));
        }
    }
    if dot < to {
        to - from > 1 && digits_only(v, from, dot) && digits_only(v, dot + 1, to)
    } else {
        to > from && digits_only(v, from, to)
    }
}

/// Whether the characters `from..to` write a decimal number.
fn decimal_range(v: &[char], from: usize, to: usize) -> (r: bool)
    requires
        from <= to <= v@.len(),
    ensures
        r == is_decimal(v@.subrange(from as int, to as int)),
{
    let a = after_sign(v, from, to);
    let ghost t = v@.subrange(a as int, to as int);
    let word = text_of(v, a, to);
    let mut e = a;
    proof {
        assert(t.skip(0) == t);
    }
    while e < to && v[e] != 'e' && v[e] != 'E'
        invariant
            a <= e <= to <= v@.len(),
            t == v@.subrange(a as int, to as int),
            (e - a) + find_e(t.skip(e - a)) == find_e(t),
        decreases to - e,
    {
        proof {
            assert(t.skip(e - a).skip(1) == t.skip(e - a + 1));
        }
        e = e + 1;
    }
    proof {
        assert(t.take(e - a) == v@.subrange(a as int, e as int));
        if e < to {
            assert(t.skip(e - a + 1) == v@.subrange(e + 1, to as int));
        }
    }
    if same_text_ignoring_ascii_case(&word, "inf") || same_text_ignoring_ascii_case(
        &word,
        "infinity",
    ) || same_text_ignoring_ascii_case(&word, "nan") {
        return true;
    }
    if !mantissa(v, a, e) {
        return false;
    }
    if e < to {
        let d = after_sign(v, e + 1, to);
        d < to && digits_only(v, d, to)
    } else {
        true
    }
}

/// Whether `s` writes a decimal number.
pub fn writes_decimal(s: &str) -> (r: bool)
    ensures
        r == is_decimal(s@),
{
    let v = chars_of(s);
    proof {
        assert(v@.subrange(0, v@.len() as int) == v@);
    }
    decimal_range(&v, 0, v.len())
}

/// Where the first sign behind the first character stands, if there is one.
pub open spec fn second_sign(s: Seq<char>, from: int) -> Option<int>
    decreases s.len() - from,
{
    if from < 0 || from >= s.len() {
        None
    } else if is_sign(s[from]) {
        Some(from)
    } else {
        second_sign(s, from + 1)
    }
}

/// The longest of the beginnings of `s` with up to `n` characters that is a
/// decimal number, if there is one.
pub open spec fn longest_decimal(s: Seq<char>, n: nat) -> Option<Seq<char>>
    decreases n,
{
    if n == 0 {
        None
    } else if is_decimal(s.take(n as int)) {
        Some(s.take(n as int))
    } else {
        longest_decimal(s, (n - 1) as nat)
    }
}

/// Latitude and longitude of an ISO 6709 location. Slashes at the end do not
/// count. The longitude begins at the first sign behind the first character and
/// goes as far as it makes a number: some encoders put an altitude behind it.
pub open spec fn location(s: Seq<char>) -> Option<(Seq<char>, Seq<char>)> {
    let t = crate::text::drop_trailing(s, CharClass::Slash);
    match second_sign(t, 1) {
        Some(split) => match longest_decimal(t.skip(split), (t.len() - split) as nat) {
            Some(lon) => if is_decimal(t.take(split)) {
                Some((t.take(split), lon))
            } else {
                None
            },
            None => None,
        },
        None => None,
    }
}

/// Latitude and longitude of an ISO 6709 location such as
/// `+48.1351+011.5820/`.
pub fn parse_iso6709(s: &str) -> (r: Option<(String, String)>)
    ensures
        optional_pair(r) == location(s@),
{
    let t = without_trailing(s, CharClass::Slash);
    let v = chars_of(&t);
    let n = v.len();
    let mut split: usize = 1;
    while split < n && v[split] != '+' && v[split] != '-'
        invariant
            n == v@.len(),
            split >= 1,
            split <= n || n == 0,
            second_sign(v@, split as int) == second_sign(v@, 1),
        decreases n - split,
    {
        split = split + 1;
    }
    if split >= n {
        return None;
    }
    proof {
        assert(v@.subrange(0, split as int) == v@.take(split as int));
    }
    if !decimal_range(&v, 0, split) {
        return None;
    }
    let ghost rest = v@.skip(split as int);
    let mut end = n;
    while end > split
        invariant
            split <= end <= n,
            n == v@.len(),
            rest == v@.skip(split as int),
            rest.len() == n - split,
            is_decimal(v@.take(split as int)),
            second_sign(v@, 1) == Some(split as int),
            v@ == crate::text::drop_trailing(s@, CharClass::Slash),
            longest_decimal(rest, (end - split) as nat) == longest_decimal(
                rest,
                (n - split) as nat,
            ),
        decreases end,
    {
        proof {
            assert(rest.take(end - split) == v@.subrange(split as int, end as int));
            assert(v@.subrange(0, split as int) == v@.take(split as int));
        }
        if decimal_range(&v, split, end) {
            return Some((text_of(&v, 0, split), text_of(&v, split, end)));
        }
        end = end - 1;
    }
    None
}

/// A latitude and a signed longitude, one behind the other with a slash at the
/// end, are read back.
pub proof fn law_location_is_read_back(lat: Seq<char>, lon: Seq<char>)
    requires
        is_decimal(lat),
        is_decimal(lon),
        is_sign(lon[0]),
        forall|i: int| 1 <= i < lat.len() ==> !is_sign(#[trigger] lat[i]),
    ensures
        location(lat + lon + seq!['/']) == Some((lat, lon)),
{
    let s = lat + lon + seq!['/'];
    let t = lat + lon;
    lemma_decimal_parts(lat);
    lemma_decimal_parts(lon);
    assert(s.last() == '/');
    assert(s.drop_last() == t);
    assert(t.last() == lon.last());
    assert(crate::text::drop_trailing(s, CharClass::Slash) == crate::text::drop_trailing(
        t,
        CharClass::Slash,
    ));
    assert(crate::text::drop_trailing(t, CharClass::Slash) == t);
    lemma_second_sign(t, 1, lat.len() as int);
    assert(t.skip(lat.len() as int) == lon);
    assert(t.take(lat.len() as int) == lat);
    assert(lon.take(lon.len() as int) == lon);
}

proof fn lemma_second_sign(s: Seq<char>, from: int, at: int)
    requires
        1 <= from <= at < s.len(),
        is_sign(s[at]),
        forall|i: int| from <= i < at ==> !is_sign(#[trigger] s[i]),
    ensures
        second_sign(s, from) == Some(at),
    decreases at - from,
{
    if from < at {
        lemma_second_sign(s, from + 1, at);
    }
}

/// A decimal number is not empty and does not end with a slash.
proof fn lemma_decimal_parts(s: Seq<char>)
    requires
        is_decimal(s),
    ensures
        s.len() > 0,
        s.last() != '/',
{
    let t = without_sign(s);
    let e = find_e(t) as int;
    lemma_find_e(t);
    reveal_strlit("inf");
    reveal_strlit("infinity");
    reveal_strlit("nan");
    assert("inf"@.last() == 'f' && "infinity"@.last() == 'y' && "nan"@.last() == 'n');
    if crate::text::same_ignoring_ascii_case(t, "inf"@) {
        lemma_same_end(t, "inf"@);
    } else if crate::text::same_ignoring_ascii_case(t, "infinity"@) {
        lemma_same_end(t, "infinity"@);
    } else if crate::text::same_ignoring_ascii_case(t, "nan"@) {
        lemma_same_end(t, "nan"@);
    } else {
        let m = t.take(e);
        assert(m.len() > 0);
        assert(s.last() == t.last());
        if e < t.len() {
            let p = t.skip(e + 1);
            let d = without_sign(p);
            assert(crate::number::is_digit(d[d.len() - 1]));
            assert(t.last() == d[d.len() - 1]);
        } else {
            let dot = crate::text::find(m, '.') as int;
            crate::text::lemma_find(m, '.');
            assert(m == t);
            if dot < m.len() {
                if dot == m.len() - 1 {
                    assert(t.last() == '.');
                } else {
                    let d = m.skip(dot + 1);
                    assert(crate::number::is_digit(d[d.len() - 1]));
                    assert(t.last() == d[d.len() - 1]);
                }
            } else {
                assert(crate::number::is_digit(m[m.len() - 1]));
            }
        }
    }
}

proof fn lemma_same_end(s: Seq<char>, word: Seq<char>)
    requires
        crate::text::same_ignoring_ascii_case(s, word),
        word.len() > 0,
    ensures
        s.len() > 0,
        crate::text::ascii_lower(s.last()) == crate::text::ascii_lower(word.last()),
{
    let f = |c: char| crate::text::ascii_lower(c);
    assert(s.map_values(f).len() == word.map_values(f).len());
    assert(s.map_values(f).last() == word.map_values(f).last());
}

proof fn lemma_find_e(s: Seq<char>)
    ensures
        find_e(s) <= s.len(),
    decreases s.len(),
{
    if s.len() > 0 && s[0] != 'e' && s[0] != 'E' {
        lemma_find_e(s.skip(1));
    }
}

/// The first of these streams that tells when it was created, and when.
pub open spec fn stream_creation(streams: Seq<JsonTree>) -> Option<Seq<char>>
    decreases streams.len(),
{
    if streams.len() == 0 {
        None
    } else {
        match streams[0].member("tags"@).member("creation_time"@).text() {
            Some(s) => Some(s),
            None => stream_creation(streams.skip(1)),
        }
    }
}

/// The first video stream.
pub open spec fn video_stream(streams: Seq<JsonTree>) -> Option<JsonTree>
    decreases streams.len(),
{
    if streams.len() == 0 {
        None
    } else if streams[0].member("codec_type"@).text() == Some("video"@) {
        Some(streams[0])
    } else {
        video_stream(streams.skip(1))
    }
}

/// The elements of a list; none of what is no list.
pub open spec fn listed(tree: JsonTree) -> Seq<JsonTree> {
    match tree {
        JsonTree::List(l) => l,
        _ => seq![],
    }
}

/// The lowest 32 bits of a number that is there.
pub open spec fn low_half(n: Option<u64>) -> Option<u32> {
    match n {
        Some(n) => Some((n % 0x1_0000_0000) as u32),
        None => None,
    }
}

/// What the report of `ffprobe` tells of a video.
pub open spec fn reported(report: JsonTree) -> Container {
    let format = report.member("format"@);
    let tags = format.member("tags"@);
    let streams = listed(report.member("streams"@));
    let place = crate::geocode::first_of(
        tags.member("com.apple.quicktime.location.ISO6709"@).text(),
        tags.member("location"@).text(),
    );
    Container {
        creation_time: crate::geocode::first_of(
            tags.member("creation_time"@).text(),
            stream_creation(streams),
        ),
        duration_secs: match format.member("duration"@).text() {
            Some(s) => if is_decimal(s) {
                Some(s)
            } else {
                None
            },
            None => None,
        },
        gps: match place {
            Some(s) => location(s),
            None => None,
        },
        width: match video_stream(streams) {
            Some(v) => low_half(v.member("width"@).number()),
            None => None,
        },
        height: match video_stream(streams) {
            Some(v) => low_half(v.member("height"@).number()),
            None => None,
        },
    }
}

fn first_creation(streams: &Vec<serde_json::Value>) -> (r: Option<String>)
    ensures
        crate::geocode::optional_view(r) == stream_creation(crate::json::json_trees(streams@)),
{
    let ghost all = crate::json::json_trees(streams@);
    let n = streams.len();
    let mut i: usize = 0;
    proof {
        assert(all.skip(0) == all);
    }
    while i < n
        invariant
            i <= n,
            n == streams@.len(),
            all == crate::json::json_trees(streams@),
            stream_creation(all.skip(i as int)) == stream_creation(all),
        decreases n - i,
    {
        proof {
            assert(all.skip(i as int)[0] == crate::json::json_tree(streams@[i as int]));
            assert(all.skip(i as int).skip(1) == all.skip(i + 1));
        }
        if let Some(s) = text(member(member(&streams[i], "tags"), "creation_time")) {
            return Some(s);
        }
        i = i + 1;
    }
    None
}

fn first_video(streams: &Vec<serde_json::Value>) -> (r: Option<&serde_json::Value>)
    ensures
        match r {
            Some(v) => video_stream(crate::json::json_trees(streams@)) == Some(
                crate::json::json_tree(*v),
            ),
            None => video_stream(crate::json::json_trees(streams@)) is None,
        },
{
    let ghost all = crate::json::json_trees(streams@);
    let n = streams.len();
    let mut i: usize = 0;
    proof {
        assert(all.skip(0) == all);
    }
    while i < n
        invariant
            i <= n,
            n == streams@.len(),
            all == crate::json::json_trees(streams@),
            video_stream(all.skip(i as int)) == video_stream(all),
        decreases n - i,
    {
        proof {
            assert(all.skip(i as int)[0] == crate::json::json_tree(streams@[i as int]));
            assert(all.skip(i as int).skip(1) == all.skip(i + 1));
        }
        if let Some(s) = text(member(&streams[i], "codec_type")) {
            if same_text(&s, "video") {
                return Some(&streams[i]);
            }
        }
        i = i + 1;
    }
    None
}

fn low_half_of(n: Option<u64>) -> (r: Option<u32>)
    ensures
        r == low_half(n),
{
    match n {
        Some(n) => {
            assert(n as u32 == n % 0x1_0000_0000) by (bit_vector);
            Some(#[verifier::truncate] (n as u32))
        },
        None => None,
    }
}

/// What a report of `ffprobe` tells of a video.
pub fn video_meta(report: &serde_json::Value) -> (m: VideoMeta)
    ensures
        m@ == reported(crate::json::json_tree(*report)),
{
    let format = member(report, "format");
    let tags = member(format, "tags");
    let streams = elements(member(report, "streams"));
    let duration_secs = match text(member(format, "duration")) {
        Some(s) => if writes_decimal(&s) {
            Some(s)
        } else {
            None
        },
        None => None,
    };
    let creation_time = match text(member(tags, "creation_time")) {
        Some(s) => Some(s),
        None => match streams {
            Some(l) => first_creation(l),
            None => None,
        },
    };
    let place = match text(member(tags, "com.apple.quicktime.location.ISO6709")) {
        Some(s) => Some(s),
        None => text(member(tags, "location")),
    };
    let gps = match place {
        Some(s) => parse_iso6709(&s),
        None => None,
    };
    let video = match streams {
        Some(l) => first_video(l),
        None => None,
    };
    let (width, height) = match video {
        Some(v) => (
            low_half_of(number(member(v, "width"))),
            low_half_of(number(member(v, "height"))),
        ),
        None => (None, None),
    };
    VideoMeta { creation_time, duration_secs, gps, width, height }
}

/// What the output of `ffprobe` tells of a video; nothing where it is not JSON.
pub fn probe_video(output: &[u8]) -> (m: VideoMeta)
    ensures
        m@ == match crate::json::parsed_json(output@) {
            Ok(report) => reported(report),
            Err(_) => untold(),
        },
{
    match parse(output) {
        Ok(report) => video_meta(&report),
        Err(_) => VideoMeta::default(),
    }
}

/// The bits of the double-precision number four.
pub const FOUR_SECONDS: u64 = 0x4010_0000_0000_0000;

/// How far into a video its frame is taken, in seconds.
pub open spec fn seek_text(duration: Option<u64>) -> Seq<char> {
    match duration {
        Some(d) => if crate::ieee::below(
            crate::ieee::place64(FOUR_SECONDS),
            crate::ieee::place64(d),
        ) {
            "2"@
        } else {
            "0"@
        },
        None => "0"@,
    }
}

/// How far into a video its frame is taken, in seconds: two into a video of
/// more than four, else at the start. The duration comes as the bits of a
/// double-precision number.
pub fn seek(duration: Option<u64>) -> (s: &'static str)
    ensures
        s@ == match duration {
            Some(d) => if crate::ieee::below(
                crate::ieee::place64(FOUR_SECONDS),
                crate::ieee::place64(d),
            ) {
                "2"@
            } else {
                "0"@
            },
            None => "0"@,
        },
        s@ == seek_text(duration),
{
    match duration {
        Some(d) => if less64(FOUR_SECONDS, d) {
            "2"
        } else {
            "0"
        },
        None => "0",
    }
}

/// The name of the file that the frame of a video goes through.
pub open spec fn frame_name(process: nat, suffix: nat) -> Seq<char> {
    "cs-imageindex-frame-"@ + crate::number::digits(process) + "-"@ + crate::number::digits(suffix)
        + ".jpg"@
}

/// The name of the file that the frame of a video goes through.
pub fn frame_file_name(process: u32, suffix: u32) -> (s: String)
    ensures
        s@ == "cs-imageindex-frame-"@ + crate::number::digits(process as nat) + "-"@
            + crate::number::digits(suffix as nat) + ".jpg"@,
        s@ == frame_name(process as nat, suffix as nat),
{
    let s = joined("cs-imageindex-frame-", &decimal(process as u64));
    let s = joined(&joined(&s, "-"), &decimal(suffix as u64));
    joined(&s, ".jpg")
}

/// What came of running `ffmpeg` for a frame.
pub enum FrameRun {
    /// It succeeded.
    Finished,
    /// It failed, or left no frame; what it wrote to its error output.
    Failed(String),
    /// It could not be run, and why.
    NotRunnable(String),
}

/// Why there is no frame, if there is none.
pub fn frame_error(run: &FrameRun) -> (r: Option<String>)
    ensures
        crate::geocode::optional_view(r) == match run {
            FrameRun::Finished => None,
            FrameRun::Failed(output) => Some("ffmpeg frame extraction failed: "@ + output@),
            FrameRun::NotRunnable(e) => Some("ffmpeg not runnable: "@ + e@),
        },
{
    match run {
        FrameRun::Finished => None,
        FrameRun::Failed(output) => Some(joined("ffmpeg frame extraction failed: ", output)),
        FrameRun::NotRunnable(e) => Some(joined("ffmpeg not runnable: ", e)),
    }
}

/// The frame of a video, or why there is none, from what came of running `ffmpeg`
/// and of decoding what it left.
pub open spec fn frame_of(
    run: FrameRun,
    decoded: Result<crate::picture::Raster, Seq<char>>,
) -> Result<crate::picture::Raster, Seq<char>> {
    match run {
        FrameRun::Finished => decoded,
        FrameRun::Failed(output) => Err("ffmpeg frame extraction failed: "@ + output@),
        FrameRun::NotRunnable(e) => Err("ffmpeg not runnable: "@ + e@),
    }
}

/// The frame of a video, or why there is none. `decoded` is what came of reading
/// and decoding the file that `ffmpeg` left.
pub fn extract_video_frame(
    run: &FrameRun,
    decoded: Result<image::DynamicImage, String>,
) -> (r: Result<image::DynamicImage, String>)
    ensures
        crate::picture::decoded_view(r) == match run {
            FrameRun::Finished => crate::picture::decoded_view(decoded),
            FrameRun::Failed(output) => Err("ffmpeg frame extraction failed: "@ + output@),
            FrameRun::NotRunnable(e) => Err("ffmpeg not runnable: "@ + e@),
        },
        crate::picture::decoded_view(r) == frame_of(*run, crate::picture::decoded_view(decoded)),
{
    match frame_error(run) {
        Some(e) => Err(e),
        None => decoded,
    }
}

/// The parts of a decimal number without a power of ten: an optional sign, at
/// least one digit, and an optional dot that more digits may follow.
pub open spec fn are_number_parts(
    sign: Seq<char>,
    whole: Seq<char>,
    point: Seq<char>,
    fraction: Seq<char>,
) -> bool {
    &&& sign == Seq::<char>::empty() || sign == seq!['+'] || sign == seq!['-']
    &&& whole.len() > 0
    &&& forall|i: int| 0 <= i < whole.len() ==> '0' <= #[trigger] whole[i] <= '9'
    &&& point == seq!['.'] || point == Seq::<char>::empty() && fraction == Seq::<char>::empty()
    &&& forall|i: int| 0 <= i < fraction.len() ==> '0' <= #[trigger] fraction[i] <= '9'
}

proof fn lemma_no_e(s: Seq<char>, n: int)
    requires
        0 <= n <= s.len(),
        forall|i: int| 0 <= i < n ==> #[trigger] s[i] != 'e' && s[i] != 'E',
    ensures
        n <= find_e(s) <= s.len(),
    decreases s.len(),
{
    if s.len() > 0 && n > 0 {
        let rest = s.skip(1);
        assert(s[0] != 'e' && s[0] != 'E');
        assert forall|i: int| 0 <= i < n - 1 implies #[trigger] rest[i] != 'e' && rest[i]
            != 'E' by {
            assert(rest[i] == s[i + 1]);
        }
        lemma_no_e(rest, n - 1);
    } else {
        lemma_find_e(s);
    }
}

/// Whole numbers and numbers with a fraction, with or without a sign, are
/// decimal numbers.
pub proof fn law_plain_numbers_are_decimal(
    sign: Seq<char>,
    whole: Seq<char>,
    point: Seq<char>,
    fraction: Seq<char>,
)
    requires
        are_number_parts(sign, whole, point, fraction),
    ensures
        is_decimal(sign + whole + point + fraction),
{
    let t = whole + point + fraction;
    let s = sign + whole + point + fraction;
    assert(without_sign(s) == t) by {
        if sign.len() == 0 {
            assert(s == t);
            assert(s[0] == whole[0]);
        } else {
            assert(s[0] == sign[0]);
            assert(s.skip(1) == t);
        }
    }
    let n = whole.len() as int;
    assert forall|i: int| 0 <= i < t.len() implies #[trigger] t[i] != 'e' && t[i] != 'E' by {
        if i < n {
            assert(t[i] == whole[i]);
        } else if i > n {
            assert(t[i] == fraction[i - n - 1]);
        } else {
            assert(t[i] == point[0]);
        }
    }
    lemma_no_e(t, t.len() as int);
    assert(t.take(t.len() as int) == t);
    crate::text::lemma_find(t, '.');
    let dot = crate::text::find(t, '.') as int;
    assert(forall|i: int| 0 <= i < n ==> #[trigger] t[i] == whole[i]);
    if point.len() > 0 {
        assert(t[n] == '.');
        if dot < n {
            assert(t[dot] == whole[dot]);
        }
        assert(t.take(n) == whole);
        assert(t.skip(n + 1) == fraction);
    } else {
        assert(t == whole);
        if dot < n {
            assert(t[dot] == whole[dot]);
        }
    }
}

/// A number with another sign behind it is no decimal number, however it goes on.
#[verifier::rlimit(40)]
proof fn lemma_sign_ends_number(whole: Seq<char>, point: Seq<char>, fraction: Seq<char>, sign: Seq<
    char,
>, tail: Seq<char>)
    requires
        are_number_parts(sign, whole, point, fraction),
        sign.len() > 0,
        tail.len() > 0,
        is_sign(tail[0]),
    ensures
        !is_decimal(sign + whole + point + fraction + tail),
{
    let body = whole + point + fraction;
    let t = body + tail;
    let s = sign + whole + point + fraction + tail;
    let n = body.len() as int;
    assert(s[0] == sign[0]);
    assert(s.skip(1) =~= t);
    assert(t[n] == tail[0]);
    assert forall|i: int| 0 <= i < n + 1 implies #[trigger] t[i] != 'e' && t[i] != 'E' by {
        if i < n {
            assert(t[i] == body[i]);
            if i < whole.len() {
                assert(body[i] == whole[i]);
            } else if i > whole.len() {
                assert(body[i] == fraction[i - whole.len() - 1]);
            } else {
                assert(body[i] == point[0]);
            }
        }
    }
    lemma_no_e(t, n + 1);
    let e = find_e(t) as int;
    let m = t.take(e);
    assert(m[n] == tail[0]);
    crate::text::lemma_find(m, '.');
    let dot = crate::text::find(m, '.') as int;
    if is_mantissa(m) {
        if dot < m.len() {
            if n < dot {
                assert(crate::number::is_digit(m.take(dot)[n]));
            } else {
                assert(n != dot);
                assert(crate::number::is_digit(m.skip(dot + 1)[n - dot - 1]));
            }
        } else {
            assert(crate::number::is_digit(m[n]));
        }
    }
    assert(t[0] == whole[0]);
    reveal_strlit("inf");
    reveal_strlit("infinity");
    reveal_strlit("nan");
    assert("inf"@[0] == 'i' && "infinity"@[0] == 'i' && "nan"@[0] == 'n');
    lemma_other_start(t, "inf"@);
    lemma_other_start(t, "infinity"@);
    lemma_other_start(t, "nan"@);
}

proof fn lemma_other_start(s: Seq<char>, word: Seq<char>)
    requires
        s.len() > 0,
        word.len() > 0,
        '0' <= s[0] <= '9',
        'a' <= word[0] <= 'z',
    ensures
        !crate::text::same_ignoring_ascii_case(s, word),
{
    crate::text::law_case_is_all_that_differs(s, word);
    if crate::text::same_ignoring_ascii_case(s, word) {
        assert(s[0] == s[0]);
    }
}

proof fn lemma_longest(s: Seq<char>, lon: Seq<char>, n: nat)
    requires
        is_decimal(lon),
        lon.len() <= n <= s.len(),
        s.take(lon.len() as int) == lon,
        lon.len() > 0,
        forall|m: int| lon.len() < m <= s.len() ==> !is_decimal(#[trigger] s.take(m)),
    ensures
        longest_decimal(s, n) == Some(lon),
    decreases n,
{
    if n > lon.len() {
        assert(!is_decimal(s.take(n as int)));
        lemma_longest(s, lon, (n - 1) as nat);
    }
}

/// The location of a video is a latitude and a signed longitude, in this order;
/// an altitude behind them and slashes at the end do not matter.
#[verifier::rlimit(40)]
pub proof fn law_latitude_comes_before_longitude(
    north: Seq<char>,
    whole: Seq<char>,
    point: Seq<char>,
    fraction: Seq<char>,
    east: Seq<char>,
    other_whole: Seq<char>,
    other_point: Seq<char>,
    other_fraction: Seq<char>,
    altitude: Seq<char>,
)
    requires
        are_number_parts(north, whole, point, fraction),
        are_number_parts(east, other_whole, other_point, other_fraction),
        east.len() > 0,
        altitude.len() > 0 ==> (altitude[0] == '+' || altitude[0] == '-') && altitude.last() != '/',
    ensures
        ({
            let lat = north + whole + point + fraction;
            let lon = east + other_whole + other_point + other_fraction;
            &&& location(lat + lon + altitude) == Some((lat, lon))
            &&& location(lat + lon + altitude + seq!['/']) == Some((lat, lon))
        }),
{
    let lat = north + whole + point + fraction;
    let lon = east + other_whole + other_point + other_fraction;
    let t = lat + lon + altitude;
    let n = lat.len() as int;
    law_plain_numbers_are_decimal(north, whole, point, fraction);
    law_plain_numbers_are_decimal(east, other_whole, other_point, other_fraction);
    lemma_decimal_parts(lon);
    assert(t.last() == if altitude.len() > 0 {
        altitude.last()
    } else {
        lon.last()
    });
    assert(crate::text::drop_trailing(t, CharClass::Slash) == t);
    assert((t + seq!['/']).drop_last() == t);
    assert(crate::text::drop_trailing(t + seq!['/'], CharClass::Slash) == t);
    assert forall|i: int| 1 <= i < n implies !is_sign(#[trigger] t[i]) by {
        let k = north.len() as int;
        let w = whole.len() as int;
        assert(t[i] == lat[i]);
        if i < k + w {
            assert(lat[i] == whole[i - k]);
        } else if i == k + w {
            assert(lat[i] == point[0]);
        } else {
            assert(lat[i] == fraction[i - k - w - 1]);
        }
    }
    assert(t[n] == east[0]);
    lemma_second_sign(t, 1, n);
    let rest = t.skip(n);
    assert(rest == lon + altitude);
    assert(rest.take(lon.len() as int) == lon);
    assert forall|m: int| lon.len() < m <= rest.len() implies !is_decimal(
        #[trigger] rest.take(m),
    ) by {
        let tail = altitude.take(m - lon.len());
        assert(tail[0] == altitude[0]);
        lemma_sign_ends_number(other_whole, other_point, other_fraction, east, tail);
        assert(rest.take(m) =~= east + other_whole + other_point + other_fraction + tail);
    }
    lemma_longest(rest, lon, rest.len());
    assert(t.take(n) == lat);
}

/// The location in Apple's tag counts before the general one, which counts where
/// that is missing. Where neither is a text, a video has no position.
pub proof fn law_report_gives_the_location(report: JsonTree, place: Seq<char>)
    ensures
        ({
            let tags = report.member("format"@).member("tags"@);
            let apple = tags.member("com.apple.quicktime.location.ISO6709"@);
            let general = tags.member("location"@);
            &&& apple == JsonTree::Text(place) ==> reported(report).gps == location(place)
            &&& apple is Null && general == JsonTree::Text(place) ==> reported(report).gps
                == location(place)
            &&& apple is Null && general is Null ==> reported(report).gps is None
        }),
{
}

proof fn lemma_stream_creation(streams: Seq<JsonTree>, k: int, when: Seq<char>)
    requires
        0 <= k < streams.len(),
        streams[k].member("tags"@).member("creation_time"@) == JsonTree::Text(when),
        forall|i: int|
            0 <= i < k ==> !((#[trigger] streams[i]).member("tags"@).member(
                "creation_time"@,
            ) is Text),
    ensures
        stream_creation(streams) == Some(when),
    decreases k,
{
    if k > 0 {
        let rest = streams.skip(1);
        assert(!(streams[0].member("tags"@).member("creation_time"@) is Text));
        assert forall|i: int| 0 <= i < k - 1 implies !((#[trigger] rest[i]).member(
            "tags"@,
        ).member("creation_time"@) is Text) by {
            assert(rest[i] == streams[i + 1]);
        }
        lemma_stream_creation(rest, k - 1, when);
    }
}

proof fn lemma_no_creation(streams: Seq<JsonTree>)
    requires
        forall|i: int|
            0 <= i < streams.len() ==> !((#[trigger] streams[i]).member("tags"@).member(
                "creation_time"@,
            ) is Text),
    ensures
        stream_creation(streams) is None,
    decreases streams.len(),
{
    if streams.len() > 0 {
        let rest = streams.skip(1);
        assert(!(streams[0].member("tags"@).member("creation_time"@) is Text));
        assert forall|i: int| 0 <= i < rest.len() implies !((#[trigger] rest[i]).member(
            "tags"@,
        ).member("creation_time"@) is Text) by {
            assert(rest[i] == streams[i + 1]);
        }
        lemma_no_creation(rest);
    }
}

/// A video was made when its container says, else when the first of its streams
/// that tells says; else nothing is known of it.
pub proof fn law_report_gives_the_date(
    report: JsonTree,
    streams: Seq<JsonTree>,
    k: int,
    when: Seq<char>,
)
    requires
        report.member("streams"@) == JsonTree::List(streams),
    ensures
        ({
            let container = report.member("format"@).member("tags"@).member("creation_time"@);
            let told = |i: int| streams[i].member("tags"@).member("creation_time"@);
            &&& container == JsonTree::Text(when) ==> reported(report).creation_time == Some(when)
            &&& !(container is Text) && 0 <= k < streams.len() && told(k) == JsonTree::Text(when)
                && (forall|i: int| 0 <= i < k ==> !(#[trigger] told(i) is Text)) ==> reported(
                report,
            ).creation_time == Some(when)
            &&& !(container is Text) && (forall|i: int|
                0 <= i < streams.len() ==> !(#[trigger] told(i) is Text)) ==> reported(
                report,
            ).creation_time is None
        }),
{
    let container = report.member("format"@).member("tags"@).member("creation_time"@);
    let told = |i: int| streams[i].member("tags"@).member("creation_time"@);
    if !(container is Text) {
        if 0 <= k < streams.len() && told(k) == JsonTree::Text(when) && (forall|i: int|
            0 <= i < k ==> !(#[trigger] told(i) is Text)) {
            assert forall|i: int| 0 <= i < k implies !((#[trigger] streams[i]).member(
                "tags"@,
            ).member("creation_time"@) is Text) by {
                assert(!(told(i) is Text));
            }
            lemma_stream_creation(streams, k, when);
        }
        if forall|i: int| 0 <= i < streams.len() ==> !(#[trigger] told(i) is Text) {
            assert forall|i: int| 0 <= i < streams.len() implies !((#[trigger] streams[i]).member(
                "tags"@,
            ).member("creation_time"@) is Text) by {
                assert(!(told(i) is Text));
            }
            lemma_no_creation(streams);
        }
    }
}

proof fn lemma_video_stream(streams: Seq<JsonTree>, k: int)
    requires
        0 <= k < streams.len(),
        streams[k].member("codec_type"@) == JsonTree::Text("video"@),
        forall|i: int|
            0 <= i < k ==> (#[trigger] streams[i]).member("codec_type"@) != JsonTree::Text(
                "video"@,
            ),
    ensures
        video_stream(streams) == Some(streams[k]),
    decreases k,
{
    if k > 0 {
        let rest = streams.skip(1);
        assert(streams[0].member("codec_type"@) != JsonTree::Text("video"@));
        assert forall|i: int| 0 <= i < k - 1 implies (#[trigger] rest[i]).member("codec_type"@)
            != JsonTree::Text("video"@) by {
            assert(rest[i] == streams[i + 1]);
        }
        lemma_video_stream(rest, k - 1);
    }
}

/// The size of a video is that of the first stream that is a video, width and
/// height each in its place; its duration is that of the container where that is
/// a number.
pub proof fn law_report_gives_size_and_duration(
    report: JsonTree,
    streams: Seq<JsonTree>,
    k: int,
    width: u32,
    height: u32,
    sign: Seq<char>,
    whole: Seq<char>,
    point: Seq<char>,
    fraction: Seq<char>,
)
    requires
        are_number_parts(sign, whole, point, fraction),
        report.member("streams"@) == JsonTree::List(streams),
        0 <= k < streams.len(),
        streams[k].member("codec_type"@) == JsonTree::Text("video"@),
        forall|i: int|
            0 <= i < k ==> (#[trigger] streams[i]).member("codec_type"@) != JsonTree::Text(
                "video"@,
            ),
    ensures
        streams[k].member("width"@) == JsonTree::Number(Some(width as u64)) ==> reported(
            report,
        ).width == Some(width),
        streams[k].member("height"@) == JsonTree::Number(Some(height as u64)) ==> reported(
            report,
        ).height == Some(height),
        report.member("format"@).member("duration"@) == JsonTree::Text(
            sign + whole + point + fraction,
        ) ==> reported(report).duration_secs == Some(sign + whole + point + fraction),
        !(report.member("format"@).member("duration"@) is Text) ==> reported(
            report,
        ).duration_secs is None,
{
    lemma_video_stream(streams, k);
    law_plain_numbers_are_decimal(sign, whole, point, fraction);
}

/// The frame of a video of more than four seconds is taken two seconds into it,
/// that of a shorter one at its start, and so is that of one whose duration is not
/// known or not a number.
pub proof fn law_frame_of_a_long_video_comes_later(d: u64)
    ensures
        d % 0x8000_0000_0000_0000 < 0x7ff0_0000_0000_0000 ==> seek_text(Some(d)) == (
        if crate::ieee::worth64(d) > 4 * crate::ieee::worth64(0x3ff0_0000_0000_0000) {
            "2"@
        } else {
            "0"@
        }),
        d % 0x8000_0000_0000_0000 > 0x7ff0_0000_0000_0000 ==> seek_text(Some(d)) == "0"@,
        seek_text(Some(0x7ff0_0000_0000_0000)) == "2"@,
        seek_text(None) == "0"@,
        crate::ieee::worth64(0x3ff0_0000_0000_0000) > 0,
{
    let four: u64 = 0x4010_0000_0000_0000;
    crate::ieee::law_double_numbers_are_in_order(four, d);
    crate::ieee::law_double_numbers_are_in_order(d, four);
    crate::ieee::law_double_numbers_are_in_order(four, four);
    lemma_pow2_unfold(1024);
    lemma_pow2_unfold(1023);
    lemma_pow2_pos(1022);
    assert(crate::ieee::worth64(0x3ff0_0000_0000_0000) == 0x10_0000_0000_0000
        * vstd::arithmetic::power2::pow2(1022));
    assert(crate::ieee::worth64(four) == 0x10_0000_0000_0000 * vstd::arithmetic::power2::pow2(
        1024,
    ));
}

/// Frames of two runs at a time, or of one run at two times, do not go through the
/// same file.
pub proof fn law_frame_files_differ(a: u32, b: u32, c: u32, d: u32)
    requires
        frame_name(a as nat, b as nat) == frame_name(c as nat, d as nat),
    ensures
        a == c,
        b == d,
{
    let (x, y) = (crate::number::digits(a as nat), crate::number::digits(b as nat));
    let (u, v) = (crate::number::digits(c as nat), crate::number::digits(d as nat));
    let begin = "cs-imageindex-frame-"@;
    reveal_strlit("cs-imageindex-frame-");
    reveal_strlit("-");
    reveal_strlit(".jpg");
    crate::number::law_written_number_reads_back(a as nat, 0, u32::MAX as nat);
    crate::number::law_written_number_reads_back(b as nat, 0, u32::MAX as nat);
    crate::number::law_written_number_reads_back(c as nat, 0, u32::MAX as nat);
    crate::number::law_written_number_reads_back(d as nat, 0, u32::MAX as nat);
    assert(crate::number::zero_filled(x, 0) == x && crate::number::zero_filled(u, 0) == u);
    let s = frame_name(a as nat, b as nat);
    let t = frame_name(c as nat, d as nat);
    let (n, m) = (x.len() as int, u.len() as int);
    assert(s[20 + n] == '-' && t[20 + m] == '-');
    if n < m {
        assert(t[20 + n] == u[n]);
        assert(crate::number::is_digit(u[n]));
    }
    if m < n {
        assert(s[20 + m] == x[m]);
        assert(crate::number::is_digit(x[m]));
    }
    assert(x =~= s.subrange(20, 20 + n));
    assert(u =~= t.subrange(20, 20 + n));
    let (p, q) = (y.len() as int, v.len() as int);
    assert(s.len() == 25 + n + p && t.len() == 25 + m + q);
    assert(y =~= s.subrange(21 + n, 21 + n + p));
    assert(v =~= t.subrange(21 + n, 21 + n + p));
}

/// A video has a frame only where `ffmpeg` succeeded and what it left could be
/// decoded, and that is then the frame. Where it failed, its words are shown.
pub proof fn law_frame_needs_a_finished_run(
    run: FrameRun,
    decoded: Result<crate::picture::Raster, Seq<char>>,
)
    ensures
        run is Finished ==> frame_of(run, decoded) == decoded,
        !(run is Finished) ==> frame_of(run, decoded) is Err,
        run matches FrameRun::Failed(output) ==> frame_of(run, decoded)->Err_0.skip(32) == output@
            && frame_of(run, decoded)->Err_0.take(32) == "ffmpeg frame extraction failed: "@,
        run matches FrameRun::NotRunnable(e) ==> frame_of(run, decoded)->Err_0.skip(21) == e@
            && frame_of(run, decoded)->Err_0.take(21) == "ffmpeg not runnable: "@,
{
    reveal_strlit("ffmpeg frame extraction failed: ");
    reveal_strlit("ffmpeg not runnable: ");
    match run {
        FrameRun::Finished => {},
        FrameRun::Failed(output) => {
            let t = "ffmpeg frame extraction failed: "@ + output@;
            assert(t.skip(32) =~= output@);
            assert(t.take(32) =~= "ffmpeg frame extraction failed: "@);
        },
        FrameRun::NotRunnable(e) => {
            let t = "ffmpeg not runnable: "@ + e@;
            assert(t.skip(21) =~= e@);
            assert(t.take(21) =~= "ffmpeg not runnable: "@);
        },
    }
}

/// A text has a location only where a sign stands behind its first character: what
/// comes before it is the latitude, which must be a number, and the longitude
/// begins with it.
pub proof fn law_location_needs_two_numbers(s: Seq<char>)
    ensures
        (forall|i: int| 1 <= i < s.len() ==> #[trigger] s[i] != '+' && s[i] != '-') ==> location(
            s,
        ) is None,
        location(s) matches Some(p) ==> {
            &&& is_decimal(p.0) && is_decimal(p.1)
            &&& p.1.len() > 0 && (p.1[0] == '+' || p.1[0] == '-')
            &&& p.0.len() + p.1.len() <= s.len()
            &&& s.take((p.0.len() + p.1.len()) as int) == p.0 + p.1
            &&& forall|i: int| 1 <= i < p.0.len() ==> #[trigger] p.0[i] != '+' && p.0[i] != '-'
        },
{
    let t = crate::text::drop_trailing(s, CharClass::Slash);
    crate::text::law_trailing_characters_are_cut(s, CharClass::Slash);
    lemma_first_sign(t, 1);
    if let Some(split) = second_sign(t, 1) {
        assert(t[split] == s[split]);
        let rest = t.skip(split);
        lemma_longest_is_a_start(rest, rest.len());
        if let Some(lon) = longest_decimal(rest, rest.len()) {
            let lat = t.take(split);
            assert(lon[0] == rest[0]);
            assert(s.take((lat.len() + lon.len()) as int) =~= lat + lon);
            assert forall|i: int| 1 <= i < lat.len() implies #[trigger] lat[i] != '+' && lat[i]
                != '-' by {
                assert(lat[i] == t[i]);
            }
        }
    }
}

proof fn lemma_first_sign(s: Seq<char>, from: int)
    requires
        from >= 0,
    ensures
        second_sign(s, from) matches Some(k) ==> from <= k < s.len() && is_sign(s[k]) && forall|
            i: int,
        | from <= i < k ==> !is_sign(#[trigger] s[i]),
    decreases s.len() - from,
{
    if from < s.len() && !is_sign(s[from]) {
        lemma_first_sign(s, from + 1);
    }
}

proof fn lemma_longest_is_a_start(s: Seq<char>, n: nat)
    requires
        n <= s.len(),
    ensures
        longest_decimal(s, n) matches Some(d) ==> is_decimal(d) && 0 < d.len() <= n && d == s.take(
            d.len() as int,
        ),
    decreases n,
{
    if n > 0 && !is_decimal(s.take(n as int)) {
        lemma_longest_is_a_start(s, (n - 1) as nat);
    }
}

/// A decimal number consists of digits, signs, dots and ASCII letters.
pub proof fn law_characters_of_a_decimal(s: Seq<char>, i: int)
    requires
        is_decimal(s),
        0 <= i < s.len(),
    ensures
        '0' <= s[i] <= '9' || s[i] == '+' || s[i] == '-' || s[i] == '.' || 'a' <= s[i] <= 'z' || 'A'
            <= s[i] <= 'Z',
{
    let t = without_sign(s);
    let k = s.len() - t.len();
    if i >= k {
        let j = i - k;
        assert(t[j] == s[i]);
        let e = find_e(t) as int;
        lemma_find_e(t);
        reveal_strlit("inf");
        reveal_strlit("infinity");
        reveal_strlit("nan");
        if crate::text::same_ignoring_ascii_case(t, "inf"@) {
            lemma_letters(t, "inf"@, j);
        } else if crate::text::same_ignoring_ascii_case(t, "infinity"@) {
            lemma_letters(t, "infinity"@, j);
        } else if crate::text::same_ignoring_ascii_case(t, "nan"@) {
            lemma_letters(t, "nan"@, j);
        } else if j < e {
            let m = t.take(e);
            assert(m[j] == t[j]);
            let dot = crate::text::find(m, '.') as int;
            crate::text::lemma_find(m, '.');
            if dot < m.len() {
                if j < dot {
                    assert(crate::number::is_digit(m.take(dot)[j]));
                } else if j > dot {
                    assert(crate::number::is_digit(m.skip(dot + 1)[j - dot - 1]));
                }
            } else {
                assert(crate::number::is_digit(m[j]));
            }
        } else if j == e {
            lemma_e_found(t);
        } else {
            let p = t.skip(e + 1);
            let d = without_sign(p);
            let l = p.len() - d.len();
            assert(p[j - e - 1] == t[j]);
            if j - e - 1 >= l {
                assert(d[j - e - 1 - l] == t[j]);
                assert(crate::number::is_digit(d[j - e - 1 - l]));
            }
        }
    }
}

proof fn lemma_letters(s: Seq<char>, word: Seq<char>, i: int)
    requires
        crate::text::same_ignoring_ascii_case(s, word),
        forall|k: int| 0 <= k < word.len() ==> 'a' <= #[trigger] word[k] <= 'z',
        0 <= i < s.len(),
    ensures
        'a' <= s[i] <= 'z' || 'A' <= s[i] <= 'Z',
{
    crate::text::law_case_is_all_that_differs(s, word);
    assert(s[i] == s[i]);
    assert('a' <= word[i] <= 'z');
}

proof fn lemma_e_found(s: Seq<char>)
    ensures
        find_e(s) < s.len() ==> s[find_e(s) as int] == 'e' || s[find_e(s) as int] == 'E',
    decreases s.len(),
{
    if s.len() > 0 && s[0] != 'e' && s[0] != 'E' {
        lemma_e_found(s.skip(1));
    }
}

/// What is known of a video is what the fields hold, each under its own name: of
/// the position, the first text is the latitude.
pub proof fn law_view_of_a_video(m: VideoMeta)
    ensures
        m@.creation_time is Some <==> m.creation_time is Some,
        m.creation_time matches Some(s) ==> m@.creation_time == Some(s@),
        m@.duration_secs is Some <==> m.duration_secs is Some,
        m.duration_secs matches Some(s) ==> m@.duration_secs == Some(s@),
        m@.gps is Some <==> m.gps is Some,
        m.gps matches Some(p) ==> m@.gps == Some((p.0@, p.1@)),
        m@.width == m.width,
        m@.height == m.height,
{
}

/// Where a number comes before the first sign behind the first character, and
/// another begins with that sign, a text has a location, and its longitude is as
/// long as it can be.
pub proof fn law_longitude_is_as_long_as_possible(s: Seq<char>, split: int, end: int)
    requires
        1 <= split < end <= s.len(),
        s.last() != '/',
        s[split] == '+' || s[split] == '-',
        forall|i: int| 1 <= i < split ==> #[trigger] s[i] != '+' && s[i] != '-',
        is_decimal(s.take(split)),
        is_decimal(s.subrange(split, end)),
    ensures
        location(s) matches Some(p) && p.0 == s.take(split) && p.1.len() >= end - split && p.1
            == s.subrange(split, split + p.1.len()),
        location(s + seq!['/']) == location(s),
{
    assert(crate::text::drop_trailing(s, CharClass::Slash) == s);
    assert((s + seq!['/']).drop_last() =~= s);
    assert(crate::text::drop_trailing(s + seq!['/'], CharClass::Slash) == s);
    lemma_second_sign(s, 1, split);
    let rest = s.skip(split);
    assert(rest.take(end - split) =~= s.subrange(split, end));
    lemma_longest_exists(rest, end - split, rest.len());
    lemma_longest_is_a_start(rest, rest.len());
    let lon = longest_decimal(rest, rest.len())->0;
    assert(rest.take(lon.len() as int) =~= s.subrange(split, split + lon.len()));
}

proof fn lemma_longest_exists(s: Seq<char>, m: int, n: nat)
    requires
        1 <= m <= n <= s.len(),
        is_decimal(s.take(m)),
    ensures
        longest_decimal(s, n) matches Some(d) && d.len() >= m,
    decreases n,
{
    if !is_decimal(s.take(n as int)) {
        lemma_longest_exists(s, m, (n - 1) as nat);
    }
}

/// A number may have a power of ten behind the letter `e`, small or capital, and
/// the power may have a sign.
#[verifier::rlimit(40)]
pub proof fn law_numbers_may_have_powers(
    sign: Seq<char>,
    whole: Seq<char>,
    point: Seq<char>,
    fraction: Seq<char>,
    e: char,
    power_sign: Seq<char>,
    power: Seq<char>,
)
    requires
        are_number_parts(sign, whole, point, fraction),
        e == 'e' || e == 'E',
        power_sign == Seq::<char>::empty() || power_sign == seq!['+'] || power_sign == seq!['-'],
        power.len() > 0,
        forall|i: int| 0 <= i < power.len() ==> '0' <= #[trigger] power[i] <= '9',
    ensures
        is_decimal(sign + whole + point + fraction + seq![e] + power_sign + power),
        !is_decimal(sign + whole + point + fraction + seq![e] + power_sign),
{
    law_plain_numbers_are_decimal(sign, whole, point, fraction);
    let body = whole + point + fraction;
    lemma_powers(sign, whole, point, fraction, e, power_sign + power);
    lemma_powers(sign, whole, point, fraction, e, power_sign);
    let p = power_sign + power;
    assert(without_sign(p) =~= power) by {
        if power_sign.len() == 0 {
            assert(p =~= power);
            assert(p[0] == power[0]);
        } else {
            assert(p[0] == power_sign[0]);
            assert(p.skip(1) =~= power);
        }
    }
    assert(without_sign(power_sign).len() == 0) by {
        if power_sign.len() > 0 {
            assert(power_sign.skip(1) =~= Seq::<char>::empty());
        }
    }
    assert(sign + whole + point + fraction + seq![e] + power_sign + power =~= sign + whole + point
        + fraction + seq![e] + p);
}

#[verifier::rlimit(40)]
proof fn lemma_powers(
    sign: Seq<char>,
    whole: Seq<char>,
    point: Seq<char>,
    fraction: Seq<char>,
    e: char,
    tail: Seq<char>,
)
    requires
        are_number_parts(sign, whole, point, fraction),
        e == 'e' || e == 'E',
    ensures
        is_decimal(sign + whole + point + fraction + seq![e] + tail) <==> is_power(tail),
{
    let body = whole + point + fraction;
    let t = body + seq![e] + tail;
    let s = sign + whole + point + fraction + seq![e] + tail;
    let n = body.len() as int;
    assert(without_sign(s) =~= t) by {
        if sign.len() == 0 {
            assert(s =~= t);
            assert(s[0] == whole[0]);
        } else {
            assert(s[0] == sign[0]);
            assert(s.skip(1) =~= t);
        }
    }
    assert forall|i: int| 0 <= i < n implies #[trigger] t[i] != 'e' && t[i] != 'E' by {
        assert(t[i] == body[i]);
        if i < whole.len() {
            assert(body[i] == whole[i]);
        } else if i > whole.len() {
            assert(body[i] == fraction[i - whole.len() - 1]);
        } else {
            assert(body[i] == point[0]);
        }
    }
    lemma_no_e(t, n);
    assert(t[n] == e);
    lemma_e_at(t, n);
    assert(t.take(n) =~= body);
    assert(t.skip(n + 1) =~= tail);
    let none = Seq::<char>::empty();
    law_plain_numbers_are_decimal(none, whole, point, fraction);
    assert(none + whole + point + fraction =~= body);
    assert(without_sign(body) == body) by {
        assert(body[0] == whole[0]);
    }
    assert forall|i: int| 0 <= i < n implies #[trigger] body[i] != 'e' && body[i] != 'E' by {
        assert(t[i] == body[i]);
    }
    lemma_no_e(body, n);
    assert(body.take(n) =~= body);
    reveal_strlit("inf");
    reveal_strlit("infinity");
    reveal_strlit("nan");
    assert("inf"@[0] == 'i' && "infinity"@[0] == 'i' && "nan"@[0] == 'n');
    assert(t[0] == whole[0] && body[0] == whole[0]);
    lemma_other_start(t, "inf"@);
    lemma_other_start(t, "infinity"@);
    lemma_other_start(t, "nan"@);
    lemma_other_start(body, "inf"@);
    lemma_other_start(body, "infinity"@);
    lemma_other_start(body, "nan"@);
}

proof fn lemma_e_at(s: Seq<char>, n: int)
    requires
        0 <= n < s.len(),
        s[n] == 'e' || s[n] == 'E',
    ensures
        find_e(s) <= n,
    decreases n,
{
    if n > 0 && s[0] != 'e' && s[0] != 'E' {
        assert(s.skip(1)[n - 1] == s[n]);
        lemma_e_at(s.skip(1), n - 1);
    }
}

} // verus!
