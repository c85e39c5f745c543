//! The Exif fields of a photo: date, position, camera, flash, orientation.

use crate::text::{chars_of, leading_end, text_of, trailing_start, trimmed, CharClass};
use vstd::prelude::*;

verus! {

/// `exif::Exif`.
#[verifier::external_type_specification]
#[verifier::external_body]
pub struct ExExif(exif::Exif);

/// The fields that are read as text.
#[derive(Clone, Copy)]
pub enum TextField {
    DateTimeOriginal,
    DateTime,
    DateTimeDigitized,
    LatitudeRef,
    LongitudeRef,
    Make,
    Model,
}

/// The fields that are read as a number.
#[derive(Clone, Copy)]
pub enum NumberField {
    Flash,
    Orientation,
}

/// The fields that are read as fractions.
#[derive(Clone, Copy)]
pub enum AngleField {
    Latitude,
    Longitude,
}

/// What the fields of a photo hold. Numbers and fractions stand only for
/// fields whose value is of that kind; a fraction is a numerator and a
/// denominator.
pub struct Fields {
    pub texts: Map<TextField, Seq<char>>,
    pub numbers: Map<NumberField, u32>,
    pub angles: Map<AngleField, Seq<(u32, u32)>>,
}

/// What the parsed fields hold.
pub uninterp spec fn exif_fields(exif: exif::Exif) -> Fields;

/// The fields that the `exif` crate finds in an image file, if it finds any.
pub uninterp spec fn container_fields(content: Seq<u8>) -> Option<Fields>;

impl Fields {
    pub open spec fn text(self, field: TextField) -> Option<Seq<char>> {
        if self.texts.contains_key(field) {
            Some(self.texts[field])
        } else {
            None
        }
    }

    pub open spec fn number(self, field: NumberField) -> Option<u32> {
        if self.numbers.contains_key(field) {
            Some(self.numbers[field])
        } else {
            None
        }
    }

    pub open spec fn angle(self, field: AngleField) -> Option<Seq<(u32, u32)>> {
        if self.angles.contains_key(field) {
            Some(self.angles[field])
        } else {
            None
        }
    }
}

/// `exif::Reader::read_from_container` over bytes in memory: the fields of an
/// image file, or `None` where the crate gives an error. They are a function of
/// the bytes alone.
#[verifier::external_body]
fn read_container(content: &[u8]) -> (r: Option<exif::Exif>)
    ensures
        match r {
            Some(exif) => container_fields(content@) == Some(exif_fields(exif)),
            None => container_fields(content@) is None,
        },
{
    exif::Reader::new().read_from_container(&mut std::io::Cursor::new(content)).ok()
}

/// `Exif::get_field` in the primary image, then the text that
/// `Field::display_value` shows.
#[verifier::external_body]
fn field_text(exif: &exif::Exif, field: TextField) -> (r: Option<String>)
    ensures
        crate::geocode::optional_view(r) == exif_fields(*exif).text(field),
{
    let tag = match field {
        TextField::DateTimeOriginal => exif::Tag::DateTimeOriginal,
        TextField::DateTime => exif::Tag::DateTime,
        TextField::DateTimeDigitized => exif::Tag::DateTimeDigitized,
        TextField::LatitudeRef => exif::Tag::GPSLatitudeRef,
        TextField::LongitudeRef => exif::Tag::GPSLongitudeRef,
        TextField::Make => exif::Tag::Make,
        TextField::Model => exif::Tag::Model,
    };
    exif.get_field(tag, exif::In::PRIMARY).map(|f| f.display_value().to_string())
}

/// `Exif::get_field` in the primary image, then `Value::get_uint` for the first
/// number of a value of unsigned integers.
#[verifier::external_body]
fn field_number(exif: &exif::Exif, field: NumberField) -> (r: Option<u32>)
    ensures
        r == exif_fields(*exif).number(field),
{
    let tag = match field {
        NumberField::Flash => exif::Tag::Flash,
        NumberField::Orientation => exif::Tag::Orientation,
    };
    exif.get_field(tag, exif::In::PRIMARY).and_then(|f| f.value.get_uint(0))
}

/// `Exif::get_field` in the primary image, then the numerators and denominators
/// of a value of the variant `Value::Rational`.
#[verifier::external_body]
fn field_angle(exif: &exif::Exif, field: AngleField) -> (r: Option<Vec<(u32, u32)>>)
    ensures
        match r {
            Some(v) => exif_fields(*exif).angle(field) == Some(v@),
            None => exif_fields(*exif).angle(field) is None,
        },
{
    let tag = match field {
        AngleField::Latitude => exif::Tag::GPSLatitude,
        AngleField::Longitude => exif::Tag::GPSLongitude,
    };
    match &exif.get_field(tag, exif::In::PRIMARY)?.value {
        exif::Value::Rational(v) => Some(v.iter().map(|r| (r.num, r.denom)).collect()),
        _ => None,
    }
}

/// A position in one direction: degrees, minutes and seconds, each a numerator
/// and a denominator, and whether it counts to the south or west.
#[derive(Debug, Clone, Copy)]
pub struct GpsAngle {
    pub degrees: (u32, u32),
    pub minutes: (u32, u32),
    pub seconds: (u32, u32),
    pub negative: bool,
}

/// A latitude or longitude.
#[derive(Debug, Clone)]
pub enum Coordinate {
    /// From the Exif fields of a photo.
    Angle(GpsAngle),
    /// In decimal degrees, from the metadata of a video.
    Decimal(String),
}

/// The fields of a photo that the index shows.
#[derive(Debug, Clone)]
pub struct ExifData {
    pub datetime: String,
    pub gps_lat: Option<Coordinate>,
    pub gps_lon: Option<Coordinate>,
    pub camera_make: String,
    pub camera_model: String,
    /// Whether the flash fired, where the photo tells.
    pub flash_fired: Option<bool>,
}

/// What an `ExifData` holds.
pub struct PhotoData {
    pub datetime: Seq<char>,
    pub gps_lat: Option<Coordinate>,
    pub gps_lon: Option<Coordinate>,
    pub camera_make: Seq<char>,
    pub camera_model: Seq<char>,
    pub flash_fired: Option<bool>,
}

impl View for ExifData {
    type V = PhotoData;

    open spec fn view(&self) -> PhotoData {
        PhotoData {
            datetime: self.datetime@,
            gps_lat: self.gps_lat,
            gps_lon: self.gps_lon,
            camera_make: self.camera_make@,
            camera_model: self.camera_model@,
            flash_fired: self.flash_fired,
        }
    }
}

/// Nothing is known of a photo.
pub open spec fn no_data() -> PhotoData {
    PhotoData {
        datetime: seq![],
        gps_lat: None,
        gps_lon: None,
        camera_make: seq![],
        camera_model: seq![],
        flash_fired: None,
    }
}

impl Default for ExifData {
    fn default() -> (d: ExifData)
        ensures
            d@ == no_data(),
    {
        ExifData {
            datetime: String::new(),
            gps_lat: None,
            gps_lon: None,
            camera_make: String::new(),
            camera_model: String::new(),
            flash_fired: None,
        }
    }
}

/// A text without double quotes at its ends, and then without white space
/// there.
pub open spec fn cleaned(s: Seq<char>) -> Seq<char> {
    crate::text::trim(
        crate::text::drop_trailing(
            crate::text::drop_leading(s, CharClass::Quote),
            CharClass::Quote,
        ),
    )
}

/// `s` without the quotes round it and without white space at its ends.
pub fn clean(s: &str) -> (r: String)
    ensures
        r@ == cleaned(s@),
{
    let v = chars_of(s);
    let n = v.len();
    proof {
        assert(v@.subrange(0, n as int) == v@);
    }
    let a = leading_end(&v, 0, n, CharClass::Quote);
    let b = trailing_start(&v, a, n, CharClass::Quote);
    trimmed(&text_of(&v, a, b))
}

/// The position that three fractions give; its sign is that of the reference
/// text, which `negative_mark` begins where the sign is negative.
pub open spec fn position(
    parts: Option<Seq<(u32, u32)>>,
    reference: Option<Seq<char>>,
    negative_mark: char,
) -> Option<Coordinate> {
    match parts {
        Some(p) => if p.len() == 3 {
            Some(
                Coordinate::Angle(
                    GpsAngle {
                        degrees: p[0],
                        minutes: p[1],
                        seconds: p[2],
                        negative: match reference {
                            Some(r) => r.len() > 0 && r[0] == negative_mark,
                            None => false,
                        },
                    },
                ),
            )
        } else {
            None
        },
        None => None,
    }
}

/// A text that is there, cleaned, else the empty one.
pub open spec fn cleaned_or_empty(s: Option<Seq<char>>) -> Seq<char> {
    match s {
        Some(s) => cleaned(s),
        None => seq![],
    }
}

/// When a photo was taken: when it was shot, else when it was changed, else
/// when it was digitized.
pub open spec fn date_of(fields: Fields) -> Seq<char> {
    match fields.text(TextField::DateTimeOriginal) {
        Some(s) => s,
        None => match fields.text(TextField::DateTime) {
            Some(s) => s,
            None => match fields.text(TextField::DateTimeDigitized) {
                Some(s) => s,
                None => seq![],
            },
        },
    }
}

/// What the index shows of these fields.
pub open spec fn photo_data(fields: Option<Fields>) -> PhotoData {
    match fields {
        Some(f) => PhotoData {
            datetime: date_of(f),
            gps_lat: position(f.angle(AngleField::Latitude), f.text(TextField::LatitudeRef), 'S'),
            gps_lon: position(
                f.angle(AngleField::Longitude),
                f.text(TextField::LongitudeRef),
                'W',
            ),
            camera_make: cleaned_or_empty(f.text(TextField::Make)),
            camera_model: cleaned_or_empty(f.text(TextField::Model)),
            flash_fired: match f.number(NumberField::Flash) {
                Some(n) => Some(n % 2 == 1),
                None => None,
            },
        },
        None => no_data(),
    }
}

/// The first text that is there.
pub fn first_text(a: Option<String>, b: Option<String>, c: Option<String>) -> (r: String)
    ensures
        r@ == match a {
            Some(s) => s@,
            None => match b {
                Some(s) => s@,
                None => match c {
                    Some(s) => s@,
                    None => seq![],
                },
            },
        },
{
    if let Some(s) = a {
        s
    } else if let Some(s) = b {
        s
    } else if let Some(s) = c {
        s
    } else {
        String::new()
    }
}

/// The position that the parts of a latitude or longitude give.
pub fn position_of(
    parts: Option<Vec<(u32, u32)>>,
    reference: Option<String>,
    negative_mark: char,
) -> (r: Option<Coordinate>)
    ensures
        r == position(
            match parts {
                Some(v) => Some(v@),
                None => None,
            },
            crate::geocode::optional_view(reference),
            negative_mark,
        ),
{
    let p = match parts {
        Some(p) => p,
        None => {
            return None;
        },
    };
    if p.len() != 3 {
        return None;
    }
    let negative = match reference {
        Some(r) => {
            let v = chars_of(&r);
            v.len() > 0 && v[0] == negative_mark
        },
        None => false,
    };
    Some(
        Coordinate::Angle(
            GpsAngle { degrees: p[0], minutes: p[1], seconds: p[2], negative },
        ),
    )
}

fn clean_or_empty(s: Option<String>) -> (r: String)
    ensures
        r@ == cleaned_or_empty(crate::geocode::optional_view(s)),
{
    match s {
        Some(s) => clean(&s),
        None => String::new(),
    }
}

/// Whether the flash fired: the lowest bit of the field.
pub fn flash_of(value: Option<u32>) -> (r: Option<bool>)
    ensures
        r == match value {
            Some(n) => Some(n % 2 == 1),
            None => None,
        },
{
    match value {
        Some(n) => {
            assert(n & 1 == n % 2) by (bit_vector);
            Some(n & 1 == 1)
        },
        None => None,
    }
}

/// What the index shows of the photo with this content.
pub fn read_all(content: &[u8]) -> (d: ExifData)
    ensures
        d@ == photo_data(container_fields(content@)),
{
    match read_container(content) {
        Some(exif) => ExifData {
            datetime: first_text(
                field_text(&exif, TextField::DateTimeOriginal),
                field_text(&exif, TextField::DateTime),
                field_text(&exif, TextField::DateTimeDigitized),
            ),
            gps_lat: position_of(
                field_angle(&exif, AngleField::Latitude),
                field_text(&exif, TextField::LatitudeRef),
                'S',
            ),
            gps_lon: position_of(
                field_angle(&exif, AngleField::Longitude),
                field_text(&exif, TextField::LongitudeRef),
                'W',
            ),
            camera_make: clean_or_empty(field_text(&exif, TextField::Make)),
            camera_model: clean_or_empty(field_text(&exif, TextField::Model)),
            flash_fired: flash_of(field_number(&exif, NumberField::Flash)),
        },
        None => ExifData::default(),
    }
}

/// The orientation of an upright photo.
pub const UPRIGHT: u32 = 1;

/// How the photo with this content is turned: its Exif orientation, which is
/// upright where there is none.
pub fn read_exif_orientation(content: &[u8]) -> (r: u32)
    ensures
        r == crate::picture::orientation_of(container_fields(content@)),
{
    match read_container(content) {
        Some(exif) => match field_number(&exif, NumberField::Orientation) {
            Some(n) => n,
            None => UPRIGHT,
        },
        None => UPRIGHT,
    }
}

/// Whether a photo looks like a screenshot: it names neither the make nor the
/// model of a camera.
pub fn is_screenshot_heuristic(data: &ExifData) -> (r: bool)
    ensures
        r == (data@.camera_make.len() == 0 && data@.camera_model.len() == 0),
{
    data.camera_make.as_str().is_empty() && data.camera_model.as_str().is_empty()
}

/// Longitudes to the west and latitudes to the south are negative, all others
/// are not: the first letter of the reference tells. Degrees, minutes and
/// seconds are those of the field.
pub proof fn law_west_and_south_are_negative(f: Fields, parts: Seq<(u32, u32)>, reference: Seq<char>)
    requires
        parts.len() == 3,
        reference.len() > 0,
    ensures
        f.angles.contains_pair(AngleField::Longitude, parts) && f.texts.contains_pair(
            TextField::LongitudeRef,
            reference,
        ) ==> (photo_data(Some(f)).gps_lon matches Some(Coordinate::Angle(a)) && a.degrees
            == parts[0] && a.minutes == parts[1] && a.seconds == parts[2] && (a.negative
            <==> reference[0] == 'W')),
        f.angles.contains_pair(AngleField::Latitude, parts) && f.texts.contains_pair(
            TextField::LatitudeRef,
            reference,
        ) ==> (photo_data(Some(f)).gps_lat matches Some(Coordinate::Angle(a)) && a.degrees
            == parts[0] && a.minutes == parts[1] && a.seconds == parts[2] && (a.negative
            <==> reference[0] == 'S')),
        f.angles.contains_pair(AngleField::Longitude, parts) && !f.texts.contains_key(
            TextField::LongitudeRef,
        ) ==> (photo_data(Some(f)).gps_lon matches Some(Coordinate::Angle(a)) && !a.negative),
        f.angles.contains_pair(AngleField::Latitude, parts) && !f.texts.contains_key(
            TextField::LatitudeRef,
        ) ==> (photo_data(Some(f)).gps_lat matches Some(Coordinate::Angle(a)) && !a.negative),
{
}

/// A reference without a letter makes no position negative.
pub proof fn law_empty_reference_is_not_negative(f: Fields)
    ensures
        f.texts.contains_pair(TextField::LongitudeRef, seq![]) ==> (photo_data(
            Some(f),
        ).gps_lon matches Some(Coordinate::Angle(a)) ==> !a.negative),
        f.texts.contains_pair(TextField::LatitudeRef, seq![]) ==> (photo_data(
            Some(f),
        ).gps_lat matches Some(Coordinate::Angle(a)) ==> !a.negative),
{
}

/// What is known of a photo is what its fields hold, each under its own name.
pub proof fn law_view_of_a_photo(d: ExifData)
    ensures
        d@.datetime == d.datetime@,
        d@.gps_lat == d.gps_lat,
        d@.gps_lon == d.gps_lon,
        d@.camera_make == d.camera_make@,
        d@.camera_model == d.camera_model@,
        d@.flash_fired == d.flash_fired,
{
}

/// A photo has a position in a direction exactly where it gives one in three
/// parts; the reference alone gives none.
pub proof fn law_position_needs_three_parts(f: Fields)
    ensures
        photo_data(Some(f)).gps_lon is Some <==> f.angles.contains_key(AngleField::Longitude)
            && f.angles[AngleField::Longitude].len() == 3,
        photo_data(Some(f)).gps_lat is Some <==> f.angles.contains_key(AngleField::Latitude)
            && f.angles[AngleField::Latitude].len() == 3,
        photo_data(None).gps_lat is None,
        photo_data(None).gps_lon is None,
{
}

/// A photo was taken when it was shot, whatever else it tells; where it does not
/// tell that, when it was changed; and where it tells neither, when it was
/// digitized. Where it tells nothing, no date is made up.
pub proof fn law_date_is_that_of_the_shot(f: Fields)
    ensures
        f.texts.contains_key(TextField::DateTimeOriginal) ==> photo_data(Some(f)).datetime
            == f.texts[TextField::DateTimeOriginal],
        !f.texts.contains_key(TextField::DateTimeOriginal) && f.texts.contains_key(
            TextField::DateTime,
        ) ==> photo_data(Some(f)).datetime == f.texts[TextField::DateTime],
        !f.texts.contains_key(TextField::DateTimeOriginal) && !f.texts.contains_key(
            TextField::DateTime,
        ) && f.texts.contains_key(TextField::DateTimeDigitized) ==> photo_data(Some(f)).datetime
            == f.texts[TextField::DateTimeDigitized],
        !f.texts.contains_key(TextField::DateTimeOriginal) && !f.texts.contains_key(
            TextField::DateTime,
        ) && !f.texts.contains_key(TextField::DateTimeDigitized) ==> photo_data(
            Some(f),
        ).datetime.len() == 0,
        photo_data(None).datetime.len() == 0,
{
}

/// The flash fired exactly where the field is odd; without the field nothing is
/// said of it.
pub proof fn law_flash_fired_where_odd(f: Fields, n: u32)
    ensures
        f.numbers.contains_pair(NumberField::Flash, (2 * (n / 2)) as u32) ==> photo_data(
            Some(f),
        ).flash_fired == Some(false),
        f.numbers.contains_pair(NumberField::Flash, (2 * (n / 2) + 1) as u32) ==> photo_data(
            Some(f),
        ).flash_fired == Some(true),
        !f.numbers.contains_key(NumberField::Flash) ==> photo_data(Some(f)).flash_fired is None,
        photo_data(None).flash_fired is None,
{
}

/// Make and model are shown as they stand between quotes, and white space within
/// these, each in its place.
pub proof fn law_camera_is_named_without_quotes(
    f: Fields,
    quotes: Seq<char>,
    before: Seq<char>,
    name: Seq<char>,
    behind: Seq<char>,
    more_quotes: Seq<char>,
)
    requires
        forall|i: int| 0 <= i < quotes.len() ==> #[trigger] quotes[i] == '"',
        forall|i: int| 0 <= i < more_quotes.len() ==> #[trigger] more_quotes[i] == '"',
        forall|i: int|
            0 <= i < before.len() ==> crate::text::white_space(#[trigger] before[i]),
        forall|i: int|
            0 <= i < behind.len() ==> crate::text::white_space(#[trigger] behind[i]),
        name.len() > 0,
        name[0] != '"' && name.last() != '"',
        !crate::text::white_space(name[0]) && !crate::text::white_space(name.last()),
    ensures
        ({
            let text = quotes + (before + name + behind) + more_quotes;
            &&& f.texts.contains_pair(TextField::Make, text) ==> photo_data(Some(f)).camera_make
                == name
            &&& f.texts.contains_pair(TextField::Model, text) ==> photo_data(Some(f)).camera_model
                == name
        }),
        !f.texts.contains_key(TextField::Make) ==> photo_data(Some(f)).camera_make.len() == 0,
        !f.texts.contains_key(TextField::Model) ==> photo_data(Some(f)).camera_model.len() == 0,
        photo_data(None).camera_make.len() == 0,
        photo_data(None).camera_model.len() == 0,
{
    let inner = before + name + behind;
    let text = quotes + inner + more_quotes;
    assert(inner[0] != '"') by {
        assert(inner[0] == if before.len() > 0 {
            before[0]
        } else {
            name[0]
        });
    }
    assert(inner.last() != '"') by {
        assert(inner.last() == if behind.len() > 0 {
            behind[behind.len() - 1]
        } else {
            name.last()
        });
    }
    crate::text::law_leading_characters_are_cut(text, CharClass::Quote);
    let t = crate::text::drop_leading(text, CharClass::Quote);
    let k = text.len() - t.len();
    let n = quotes.len() as int;
    assert(text[n] == inner[0]);
    if k > n {
        assert(CharClass::Quote.has(text[n]));
    }
    if k < n {
        assert(t[0] == text[k]);
        assert(text[k] == quotes[k]);
    }
    assert(t =~= inner + more_quotes);
    crate::text::law_trailing_characters_are_cut(t, CharClass::Quote);
    let r = crate::text::drop_trailing(t, CharClass::Quote);
    let m = r.len() as int;
    if m < inner.len() {
        assert(t[inner.len() - 1] == inner.last());
        assert(CharClass::Quote.has(t[inner.len() - 1]));
    }
    if m > inner.len() {
        assert(r.last() == t[m - 1]);
        assert(t[m - 1] == more_quotes[m - 1 - inner.len()]);
    }
    assert(r =~= inner);
    crate::text::law_trim_takes_only_white_space(before, name, behind);
    assert(cleaned(text) == name);
}

} // verus!
