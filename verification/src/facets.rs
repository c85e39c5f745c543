//! Counts the values that the index holds in a few columns, for a user
//! interface to offer as pick-lists.

use crate::csv_text::{read_rows, write_table};
use crate::number::decimal;
use crate::text::{chars_of, text_less, text_of, trimmed};
use vstd::hash_map::StringHashMap;
use vstd::prelude::*;

verus! {

broadcast use vstd::hash_map::group_hash_map_axioms;

/// A column whose values are counted.
#[derive(Clone, Copy, PartialEq, Eq, Structural)]
pub enum Facet {
    Camera,
    DateMonth,
    MediaType,
    Place,
    Resolution,
}

impl Facet {
    /// The name of the dimension.
    pub open spec fn title(self) -> Seq<char> {
        match self {
            Facet::Camera => "camera"@,
            Facet::DateMonth => "date_month"@,
            Facet::MediaType => "media_type"@,
            Facet::Place => "place"@,
            Facet::Resolution => "resolution"@,
        }
    }

    /// The index column that the dimension is taken from.
    pub open spec fn column(self) -> nat {
        match self {
            Facet::Camera => 6,
            Facet::DateMonth => 2,
            Facet::MediaType => 1,
            Facet::Place => 5,
            Facet::Resolution => 7,
        }
    }

    fn title_text(self) -> (s: String)
        ensures
            s@ == self.title(),
    {
        match self {
            Facet::Camera => "camera".to_owned(),
            Facet::DateMonth => "date_month".to_owned(),
            Facet::MediaType => "media_type".to_owned(),
            Facet::Place => "place".to_owned(),
            Facet::Resolution => "resolution".to_owned(),
        }
    }

    fn column_index(self) -> (i: usize)
        ensures
            i == self.column(),
    {
        match self {
            Facet::Camera => 6,
            Facet::DateMonth => 2,
            Facet::MediaType => 1,
            Facet::Place => 5,
            Facet::Resolution => 7,
        }
    }
}

/// `dt` begins with four digits, a dash or a colon, and two digits.
pub open spec fn begins_with_month(dt: Seq<char>) -> bool {
    &&& dt.len() >= 7
    &&& crate::number::all_digits(dt.take(4))
    &&& dt[4] == '-' || dt[4] == ':'
    &&& crate::number::all_digits(dt.subrange(5, 7))
}

/// The year and the month of a date, joined by a dash.
pub open spec fn month_of(dt: Seq<char>) -> Option<Seq<char>> {
    if begins_with_month(dt) {
        Some(dt.take(4) + seq!['-'] + dt.subrange(5, 7))
    } else {
        None
    }
}

fn digit(c: char) -> (b: bool)
    ensures
        b == crate::number::is_digit(c),
{
    '0' <= c && c <= '9'
}

/// `2026:08:30 14:02:11` or `2026-08-30 14:02:11` gives `2026-08`; a text that
/// does not begin like a date gives nothing.
pub fn year_month(dt: &str) -> (r: Option<String>)
    ensures
        match r {
            Some(m) => month_of(dt@) == Some(m@),
            None => month_of(dt@) is None,
        },
{
    let v = chars_of(dt);
    proof {
        let (year, month) = (dt@.take(4), dt@.subrange(5, 7));
        if dt@.len() >= 7 {
            assert(year[0] == v@[0] && year[1] == v@[1] && year[2] == v@[2] && year[3] == v@[3]);
            assert(month[0] == v@[5] && month[1] == v@[6]);
        }
    }
    if v.len() >= 7 && digit(v[0]) && digit(v[1]) && digit(v[2]) && digit(v[3]) && (v[4] == '-'
        || v[4] == ':') && digit(v[5]) && digit(v[6]) {
        let mut s = text_of(&v, 0, 4);
        s.push('-');
        s.push(v[5]);
        s.push(v[6]);
        proof {
            assert(s@ == dt@.take(4) + seq!['-'] + dt@.subrange(5, 7));
        }
        Some(s)
    } else {
        None
    }
}

/// A field of an index row without white space at its ends; empty where the
/// row is too short.
pub open spec fn field(row: Seq<Seq<char>>, i: nat) -> Seq<char> {
    if i < row.len() {
        crate::text::trim(row[i as int])
    } else {
        seq![]
    }
}

/// The value that a row adds to a facet, if it adds one.
pub open spec fn facet_value(facet: Facet, row: Seq<Seq<char>>) -> Option<Seq<char>> {
    let f = field(row, facet.column());
    if facet == Facet::DateMonth {
        month_of(f)
    } else if f.len() > 0 {
        Some(f)
    } else {
        None
    }
}

/// How many rows add `value` to the facet.
pub open spec fn tally(facet: Facet, rows: Seq<Seq<Seq<char>>>, value: Seq<char>) -> nat
    decreases rows.len(),
{
    if rows.len() == 0 {
        0
    } else {
        tally(facet, rows.drop_last(), value) + if facet_value(facet, rows.last()) == Some(value) {
            1nat
        } else {
            0nat
        }
    }
}

/// The order of a pick-list: the more frequent value first, equally frequent
/// ones in the order of strings.
pub open spec fn listed_before(a: (Seq<char>, nat), b: (Seq<char>, nat)) -> bool {
    a.1 > b.1 || a.1 == b.1 && crate::text::less(a.0, b.0)
}

/// `list` holds each value of the facet once, with its count, in order.
pub open spec fn is_pick_list(
    facet: Facet,
    rows: Seq<Seq<Seq<char>>>,
    list: Seq<(Seq<char>, nat)>,
) -> bool {
    &&& forall|i: int, j: int|
        0 <= i < j < list.len() ==> listed_before(#[trigger] list[i], #[trigger] list[j])
    &&& forall|i: int|
        0 <= i < list.len() ==> (#[trigger] list[i]).1 == tally(facet, rows, list[i].0)
            && list[i].1 > 0
    &&& forall|value: Seq<char>| #[trigger]
        tally(facet, rows, value) > 0 ==> list.contains((value, tally(facet, rows, value)))
}

fn row_value(facet: Facet, row: &Vec<String>) -> (r: Option<String>)
    ensures
        match r {
            Some(v) => facet_value(facet, crate::text::views(row@)) == Some(v@),
            None => facet_value(facet, crate::text::views(row@)) is None,
        },
{
    let i = facet.column_index();
    let f = if i < row.len() {
        trimmed(&row[i])
    } else {
        String::new()
    };
    proof {
        assert(f@ == field(crate::text::views(row@), facet.column()));
    }
    if facet == Facet::DateMonth {
        year_month(&f)
    } else if f.as_str().is_empty() {
        None
    } else {
        Some(f)
    }
}

spec fn entry_view(e: (String, usize)) -> (Seq<char>, nat) {
    (e.0@, e.1 as nat)
}

/// The contents of counted values.
pub open spec fn entries_view(entries: Seq<(String, usize)>) -> Seq<(Seq<char>, nat)> {
    entries.map_values(|e: (String, usize)| (e.0@, e.1 as nat))
}

/// `entries` holds each value once, with its count, in any order.
spec fn is_tally(
    facet: Facet,
    rows: Seq<Seq<Seq<char>>>,
    entries: Seq<(String, usize)>,
    place: Map<Seq<char>, usize>,
) -> bool {
    &&& forall|i: int|
        0 <= i < entries.len() ==> (#[trigger] entries[i]).1 == tally(facet, rows, entries[i].0@)
            && entries[i].1 > 0 && place.contains_key(entries[i].0@) && place[entries[i].0@] == i
    &&& forall|value: Seq<char>| #[trigger]
        tally(facet, rows, value) > 0 ==> place.contains_key(value)
    &&& forall|value: Seq<char>| #[trigger]
        place.contains_key(value) ==> place[value] < entries.len()
            && entries[place[value] as int].0@ == value
}

proof fn lemma_tally_bounded(facet: Facet, rows: Seq<Seq<Seq<char>>>, value: Seq<char>)
    ensures
        tally(facet, rows, value) <= rows.len(),
    decreases rows.len(),
{
    if rows.len() > 0 {
        lemma_tally_bounded(facet, rows.drop_last(), value);
    }
}

/// Counts the values of a facet in the order in which they first appear.
fn count_values(facet: Facet, rows: &Vec<Vec<String>>) -> (entries: Vec<(String, usize)>)
    ensures
        exists|place: Map<Seq<char>, usize>| #[trigger]
            is_tally(facet, crate::csv_text::rows_view(rows@), entries@, place),
{
    let mut entries: Vec<(String, usize)> = Vec::new();
    let mut place: StringHashMap<usize> = StringHashMap::new();
    let ghost all = crate::csv_text::rows_view(rows@);
    for i in 0..rows.len()
        invariant
            all == crate::csv_text::rows_view(rows@),
            is_tally(facet, all.take(i as int), entries@, place@),
    {
        let ghost now = all.take(i + 1);
        let ghost entries_before = entries@;
        let ghost place_before = place@;
        proof {
            assert(now.drop_last() == all.take(i as int));
            assert(now.last() == crate::text::views(rows@[i as int]@));
        }
        match row_value(facet, &rows[i]) {
            Some(value) => {
                let ghost text = value@;
                proof {
                    lemma_tally_bounded(facet, all.take(i as int), value@);
                }
                let at: Option<usize> = match place.get(&value) {
                    Some(p) => Some(*p),
                    None => None,
                };
                match at {
                    Some(p) => {
                        let count: usize = entries[p].1;
                        let name: String = entries[p].0.clone();
                        entries.set(p, (name, count + 1));
                        proof {
                            assert forall|k: int| 0 <= k < entries@.len() implies (
                            #[trigger] entries@[k]).1 == tally(facet, now, entries@[k].0@)
                                && entries@[k].1 > 0 && place@.contains_key(entries@[k].0@)
                                && place@[entries@[k].0@] == k by {
                                assert(entries_before[k].0@ == entries@[k].0@);
                            }
                            assert forall|v: Seq<char>| #[trigger]
                                tally(facet, now, v) > 0 implies place@.contains_key(v) by {
                                assert(tally(facet, all.take(i as int), v) > 0 || v == text);
                            }
                        }
                    },
                    None => {
                        let p = entries.len();
                        entries.push((value.clone(), 1usize));
                        place.insert(value, p);
                        proof {
                            assert(tally(facet, all.take(i as int), text) == 0);
                            assert forall|k: int| 0 <= k < entries@.len() implies (
                            #[trigger] entries@[k]).1 == tally(facet, now, entries@[k].0@)
                                && entries@[k].1 > 0 && place@.contains_key(entries@[k].0@)
                                && place@[entries@[k].0@] == k by {
                                if k < p {
                                    assert(entries_before[k] == entries@[k]);
                                }
                            }
                            assert forall|v: Seq<char>| #[trigger]
                                tally(facet, now, v) > 0 implies place@.contains_key(v) by {
                                assert(tally(facet, all.take(i as int), v) > 0 || v == text);
                            }
                        }
                    },
                }
            },
            None => {
                proof {
                    assert forall|v: Seq<char>| #[trigger]
                        tally(facet, now, v) > 0 implies place@.contains_key(v) by {
                        assert(tally(facet, all.take(i as int), v) > 0);
                    }
                }
            },
        }
    }
    proof {
        assert(all.take(rows@.len() as int) == all);
    }
    entries
}

fn comes_before(a: &(String, usize), b: &(String, usize)) -> (r: bool)
    ensures
        r == listed_before(entry_view(*a), entry_view(*b)),
{
    a.1 > b.1 || a.1 == b.1 && text_less(&a.0, &b.0)
}

/// `order` lists positions of `entries` in the order of a pick-list.
spec fn in_order(entries: Seq<(String, usize)>, order: Seq<usize>) -> bool {
    &&& forall|i: int| 0 <= i < order.len() ==> (#[trigger] order[i]) < entries.len()
    &&& forall|i: int, j: int|
        0 <= i < j < order.len() ==> listed_before(
            entry_view(entries[#[trigger] order[i] as int]),
            entry_view(entries[#[trigger] order[j] as int]),
        )
}

spec fn all_different(entries: Seq<(String, usize)>) -> bool {
    forall|i: int, j: int|
        0 <= i < entries.len() && 0 <= j < entries.len() && i != j ==> (#[trigger] entries[i]).0@
            != (#[trigger] entries[j]).0@
}

proof fn lemma_order_total(a: (Seq<char>, nat), b: (Seq<char>, nat), c: (Seq<char>, nat))
    ensures
        listed_before(a, b) ==> !listed_before(b, a),
        listed_before(a, b) && listed_before(b, c) ==> listed_before(a, c),
        a.0 != b.0 ==> listed_before(a, b) || listed_before(b, a),
        !listed_before(a, a),
{
    crate::text::law_text_order_is_strict_and_total(a.0, b.0, c.0);
    crate::text::law_text_order_is_strict_and_total(b.0, a.0, c.0);
}

/// Merges two ordered lists of positions that share no value.
fn merge(entries: &Vec<(String, usize)>, a: &Vec<usize>, b: &Vec<usize>) -> (out: Vec<usize>)
    requires
        all_different(entries@),
        in_order(entries@, a@),
        in_order(entries@, b@),
        forall|i: int, j: int|
            0 <= i < a@.len() && 0 <= j < b@.len() ==> #[trigger] a@[i] != #[trigger] b@[j],
    ensures
        in_order(entries@, out@),
        out@.len() == a@.len() + b@.len(),
        forall|x: usize| #[trigger] out@.contains(x) <==> a@.contains(x) || b@.contains(x),
{
    let mut out: Vec<usize> = Vec::new();
    let mut i: usize = 0;
    let mut j: usize = 0;
    while i < a.len() || j < b.len()
        invariant
            all_different(entries@),
            in_order(entries@, a@),
            in_order(entries@, b@),
            forall|i: int, j: int|
                0 <= i < a@.len() && 0 <= j < b@.len() ==> #[trigger] a@[i] != #[trigger] b@[j],
            i <= a@.len(),
            j <= b@.len(),
            out@.len() == i + j,
            in_order(entries@, out@),
            forall|k: int, m: int|
                0 <= k < out@.len() && i <= m < a@.len() ==> listed_before(
                    entry_view(entries@[#[trigger] out@[k] as int]),
                    entry_view(entries@[#[trigger] a@[m] as int]),
                ),
            forall|k: int, m: int|
                0 <= k < out@.len() && j <= m < b@.len() ==> listed_before(
                    entry_view(entries@[#[trigger] out@[k] as int]),
                    entry_view(entries@[#[trigger] b@[m] as int]),
                ),
            forall|k: int| 0 <= k < i ==> out@.contains(#[trigger] a@[k]),
            forall|k: int| 0 <= k < j ==> out@.contains(#[trigger] b@[k]),
            forall|k: int|
                0 <= k < out@.len() ==> a@.contains(#[trigger] out@[k]) || b@.contains(out@[k]),
        decreases a@.len() - i + b@.len() - j,
    {
        let ghost before = out@;
        let from_a = j >= b.len() || i < a.len() && comes_before(&entries[a[i]], &entries[b[j]]);
        proof {
            if i < a@.len() && j < b@.len() {
                let x = entry_view(entries@[a@[i as int] as int]);
                let y = entry_view(entries@[b@[j as int] as int]);
                assert(a@[i as int] != b@[j as int]);
                lemma_order_total(x, y, y);
                assert forall|m: int| j <= m < b@.len() && from_a implies listed_before(
                    x,
                    entry_view(entries@[#[trigger] b@[m] as int]),
                ) by {
                    lemma_order_total(x, y, entry_view(entries@[b@[m] as int]));
                }
                assert forall|m: int| i <= m < a@.len() && !from_a implies listed_before(
                    y,
                    entry_view(entries@[#[trigger] a@[m] as int]),
                ) by {
                    lemma_order_total(y, x, entry_view(entries@[a@[m] as int]));
                }
            }
        }
        if from_a {
            out.push(a[i]);
            i = i + 1;
        } else {
            out.push(b[j]);
            j = j + 1;
        }
        proof {
            assert forall|x: usize| before.contains(x) implies #[trigger] out@.contains(x) by {
                let k = before.index_of(x);
                assert(out@[k] == x);
            }
            assert(out@[out@.len() - 1] == out@.last());
            assert(out@.contains(out@.last()));
            if from_a {
                assert(a@[i - 1] == out@.last());
            } else {
                assert(b@[j - 1] == out@.last());
            }
            assert forall|k: int| 0 <= k < out@.len() implies a@.contains(#[trigger] out@[k])
                || b@.contains(out@[k]) by {
                if k < before.len() {
                    assert(before[k] == out@[k]);
                }
            }
        }
    }
    proof {
        assert forall|x: usize| #[trigger] out@.contains(x) <==> a@.contains(x) || b@.contains(
            x,
        ) by {
            if a@.contains(x) {
                let k = a@.index_of(x);
                assert(out@.contains(a@[k]));
            }
            if b@.contains(x) {
                let k = b@.index_of(x);
                assert(out@.contains(b@[k]));
            }
        }
    }
    out
}

/// The positions `from..to` in the order of a pick-list.
fn sorted_positions(entries: &Vec<(String, usize)>, from: usize, to: usize) -> (order: Vec<usize>)
    requires
        from <= to <= entries@.len(),
        all_different(entries@),
    ensures
        in_order(entries@, order@),
        order@.len() == to - from,
        forall|x: usize| #[trigger] order@.contains(x) <==> from <= x < to,
    decreases to - from,
{
    if to - from == 0 {
        Vec::new()
    } else if to - from == 1 {
        let mut order: Vec<usize> = Vec::new();
        order.push(from);
        proof {
            assert(order@[0] == from);
        }
        order
    } else {
        let middle: usize = from + (to - from) / 2;
        let a = sorted_positions(entries, from, middle);
        let b = sorted_positions(entries, middle, to);
        proof {
            assert forall|i: int, j: int|
                0 <= i < a@.len() && 0 <= j < b@.len() implies #[trigger] a@[i] != #[trigger]
                b@[j] by {
                assert(a@.contains(a@[i]));
                assert(b@.contains(b@[j]));
            }
        }
        merge(entries, &a, &b)
    }
}

/// The values of a facet with their counts: the most frequent first, equally
/// frequent ones in the order of strings.
pub fn facet_entries(facet: Facet, rows: &Vec<Vec<String>>) -> (list: Vec<(String, usize)>)
    ensures
        is_pick_list(facet, crate::csv_text::rows_view(rows@), entries_view(list@)),
{
    let entries = count_values(facet, rows);
    let ghost all = crate::csv_text::rows_view(rows@);
    let ghost place = choose|place: Map<Seq<char>, usize>| #[trigger]
        is_tally(facet, all, entries@, place);
    proof {
        assert forall|i: int, j: int|
            0 <= i < entries@.len() && 0 <= j < entries@.len() && i != j implies (
        #[trigger] entries@[i]).0@ != (#[trigger] entries@[j]).0@ by {
            assert(place[entries@[i].0@] == i);
            assert(place[entries@[j].0@] == j);
        }
    }
    let order = sorted_positions(&entries, 0, entries.len());
    let mut list: Vec<(String, usize)> = Vec::new();
    for i in 0..order.len()
        invariant
            in_order(entries@, order@),
            list@.len() == i,
            forall|k: int|
                0 <= k < i ==> (#[trigger] list@[k]).0@ == entries@[order@[k] as int].0@
                    && list@[k].1 == entries@[order@[k] as int].1,
    {
        let e: &(String, usize) = &entries[order[i]];
        list.push((e.0.clone(), e.1));
    }
    proof {
        let view = entries_view(list@);
        assert forall|i: int| 0 <= i < view.len() implies #[trigger] view[i] == entry_view(
            entries@[order@[i] as int],
        ) by {
            assert(list@[i].0@ == entries@[order@[i] as int].0@);
        }
        assert forall|i: int, j: int| 0 <= i < j < view.len() implies listed_before(
            #[trigger] view[i],
            #[trigger] view[j],
        ) by {
            assert(listed_before(
                entry_view(entries@[order@[i] as int]),
                entry_view(entries@[order@[j] as int]),
            ));
        }
        assert forall|value: Seq<char>| #[trigger]
            tally(facet, all, value) > 0 implies view.contains(
            (value, tally(facet, all, value)),
        ) by {
            let p = place[value];
            assert(place.contains_key(value));
            assert(order@.contains(p));
            let k = order@.index_of(p);
            assert(view[k] == entry_view(entries@[p as int]));
        }
    }
    list
}

proof fn lemma_pick_list_prefix(
    facet: Facet,
    rows: Seq<Seq<Seq<char>>>,
    a: Seq<(Seq<char>, nat)>,
    b: Seq<(Seq<char>, nat)>,
    n: nat,
)
    requires
        is_pick_list(facet, rows, a),
        is_pick_list(facet, rows, b),
        n <= a.len(),
    ensures
        n <= b.len(),
        a.take(n as int) == b.take(n as int),
    decreases n,
{
    if n > 0 {
        let m = n - 1;
        lemma_pick_list_prefix(facet, rows, a, b, m as nat);
        let x = a[m];
        assert(tally(facet, rows, x.0) > 0);
        assert(b.contains(x));
        let k = b.index_of(x);
        assert(b[k] == x);
        if k < m {
            assert(a.take(m)[k] == b.take(m)[k]);
            assert(a[k] == x);
            assert(listed_before(a[k], a[m]));
            lemma_order_total(x, x, x);
        }
        if k > m {
            let y = b[m];
            assert(tally(facet, rows, y.0) > 0);
            assert(a.contains(y));
            let l = a.index_of(y);
            assert(a[l] == y);
            assert(listed_before(b[m], b[k]));
            if l < m {
                assert(a.take(m)[l] == b.take(m)[l]);
                assert(listed_before(b[l], b[m]));
                lemma_order_total(y, y, y);
            } else if l == m {
                lemma_order_total(x, y, x);
                lemma_order_total(x, x, x);
            } else {
                assert(listed_before(a[m], a[l]));
                lemma_order_total(x, y, x);
            }
        }
        assert(k == m);
        assert(a.take(n as int) == a.take(m).push(x));
        assert(b.take(n as int) == b.take(m).push(x));
    }
}

/// Rows have one pick-list for a facet: its values, counts and order leave no
/// choice.
pub proof fn law_pick_list_is_unique(
    facet: Facet,
    rows: Seq<Seq<Seq<char>>>,
    a: Seq<(Seq<char>, nat)>,
    b: Seq<(Seq<char>, nat)>,
)
    requires
        is_pick_list(facet, rows, a),
        is_pick_list(facet, rows, b),
    ensures
        a == b,
{
    lemma_pick_list_prefix(facet, rows, a, b, a.len());
    lemma_pick_list_prefix(facet, rows, b, a, b.len());
    assert(a.take(a.len() as int) == a);
    assert(b.take(b.len() as int) == b);
}

/// A date gives the same month whether its parts are separated by dashes or by
/// colons.
pub proof fn law_month_ignores_the_separator(dt: Seq<char>)
    requires
        dt.len() > 4,
    ensures
        month_of(dt.update(4, '-')) == month_of(dt.update(4, ':')),
{
    let (a, b) = (dt.update(4, '-'), dt.update(4, ':'));
    assert(a.take(4) == b.take(4));
    if dt.len() >= 7 {
        assert(a.subrange(5, 7) == b.subrange(5, 7));
    }
}

/// How many rows add a value to the facet.
pub open spec fn rows_with_value(facet: Facet, rows: Seq<Seq<Seq<char>>>) -> nat
    decreases rows.len(),
{
    if rows.len() == 0 {
        0
    } else {
        rows_with_value(facet, rows.drop_last()) + if facet_value(facet, rows.last()) is Some {
            1nat
        } else {
            0nat
        }
    }
}

/// The counts of a list together.
pub open spec fn counts_together(list: Seq<(Seq<char>, nat)>) -> nat
    decreases list.len(),
{
    if list.len() == 0 {
        0
    } else {
        counts_together(list.drop_last()) + list.last().1
    }
}

/// The tallies of the values of a list together, over these rows.
spec fn tallies_together(
    facet: Facet,
    rows: Seq<Seq<Seq<char>>>,
    list: Seq<(Seq<char>, nat)>,
) -> nat
    decreases list.len(),
{
    if list.len() == 0 {
        0
    } else {
        tallies_together(facet, rows, list.drop_last()) + tally(facet, rows, list.last().0)
    }
}

/// A list without a value twice.
spec fn has_no_value_twice(list: Seq<(Seq<char>, nat)>) -> bool {
    forall|i: int, j: int|
        0 <= i < j < list.len() ==> (#[trigger] list[i]).0 != (#[trigger] list[j]).0
}

spec fn lists_value(list: Seq<(Seq<char>, nat)>, value: Seq<char>) -> bool {
    exists|i: int| 0 <= i < list.len() && (#[trigger] list[i]).0 == value
}

proof fn lemma_one_more_row(
    facet: Facet,
    rows: Seq<Seq<Seq<char>>>,
    list: Seq<(Seq<char>, nat)>,
)
    requires
        rows.len() > 0,
        has_no_value_twice(list),
    ensures
        tallies_together(facet, rows, list) == tallies_together(facet, rows.drop_last(), list) + (
        match facet_value(facet, rows.last()) {
            Some(v) => if lists_value(list, v) {
                1nat
            } else {
                0nat
            },
            None => 0nat,
        }),
    decreases list.len(),
{
    if list.len() > 0 {
        let rest = list.drop_last();
        assert forall|i: int, j: int| 0 <= i < j < rest.len() implies (#[trigger] rest[i]).0 != (
        #[trigger] rest[j]).0 by {
            assert(list[i].0 != list[j].0);
        }
        lemma_one_more_row(facet, rows, rest);
        if let Some(v) = facet_value(facet, rows.last()) {
            let last = list.len() - 1;
            if lists_value(rest, v) {
                let i = choose|i: int| 0 <= i < rest.len() && (#[trigger] rest[i]).0 == v;
                assert(list[i].0 == v);
                assert(list[i].0 != list[last].0);
            } else if list[last].0 == v {
                assert(lists_value(list, v));
            } else if lists_value(list, v) {
                let i = choose|i: int| 0 <= i < list.len() && (#[trigger] list[i]).0 == v;
                assert(rest[i].0 == v);
            }
        }
    }
}

proof fn lemma_tallies(
    facet: Facet,
    rows: Seq<Seq<Seq<char>>>,
    list: Seq<(Seq<char>, nat)>,
)
    requires
        has_no_value_twice(list),
        forall|i: int|
            0 <= i < rows.len() ==> match facet_value(facet, #[trigger] rows[i]) {
                Some(v) => lists_value(list, v),
                None => true,
            },
    ensures
        tallies_together(facet, rows, list) == rows_with_value(facet, rows),
    decreases rows.len(),
{
    if rows.len() == 0 {
        lemma_no_rows(facet, rows, list);
    } else {
        let fewer = rows.drop_last();
        assert forall|i: int| 0 <= i < fewer.len() implies match facet_value(
            facet,
            #[trigger] fewer[i],
        ) {
            Some(v) => lists_value(list, v),
            None => true,
        } by {
            assert(fewer[i] == rows[i]);
        }
        lemma_tallies(facet, fewer, list);
        lemma_one_more_row(facet, rows, list);
        assert(rows.last() == rows[rows.len() - 1]);
    }
}

proof fn lemma_no_rows(facet: Facet, rows: Seq<Seq<Seq<char>>>, list: Seq<(Seq<char>, nat)>)
    requires
        rows.len() == 0,
    ensures
        tallies_together(facet, rows, list) == 0,
    decreases list.len(),
{
    if list.len() > 0 {
        lemma_no_rows(facet, rows, list.drop_last());
    }
}

proof fn lemma_tally_of_row(facet: Facet, rows: Seq<Seq<Seq<char>>>, i: int, value: Seq<char>)
    requires
        0 <= i < rows.len(),
        facet_value(facet, rows[i]) == Some(value),
    ensures
        tally(facet, rows, value) > 0,
    decreases rows.len(),
{
    if i < rows.len() - 1 {
        lemma_tally_of_row(facet, rows.drop_last(), i, value);
    }
}

proof fn lemma_counts_are_tallies(
    facet: Facet,
    rows: Seq<Seq<Seq<char>>>,
    list: Seq<(Seq<char>, nat)>,
)
    requires
        forall|i: int|
            0 <= i < list.len() ==> (#[trigger] list[i]).1 == tally(facet, rows, list[i].0),
    ensures
        counts_together(list) == tallies_together(facet, rows, list),
    decreases list.len(),
{
    if list.len() > 0 {
        let rest = list.drop_last();
        assert forall|i: int| 0 <= i < rest.len() implies (#[trigger] rest[i]).1 == tally(
            facet,
            rows,
            rest[i].0,
        ) by {
            assert(rest[i] == list[i]);
        }
        lemma_counts_are_tallies(facet, rows, rest);
        assert(list.last() == list[list.len() - 1]);
    }
}

/// The counts of a pick-list add up to the number of rows that have a value: no
/// row is left out, and none counts twice.
pub proof fn law_counts_add_up(
    facet: Facet,
    rows: Seq<Seq<Seq<char>>>,
    list: Seq<(Seq<char>, nat)>,
)
    requires
        is_pick_list(facet, rows, list),
    ensures
        counts_together(list) == rows_with_value(facet, rows),
{
    assert forall|i: int, j: int| 0 <= i < j < list.len() implies (#[trigger] list[i]).0 != (
    #[trigger] list[j]).0 by {
        assert(listed_before(list[i], list[j]));
        lemma_order_total(list[i], list[i], list[i]);
    }
    assert forall|i: int| 0 <= i < rows.len() implies match facet_value(
        facet,
        #[trigger] rows[i],
    ) {
        Some(v) => lists_value(list, v),
        None => true,
    } by {
        if let Some(v) = facet_value(facet, rows[i]) {
            lemma_tally_of_row(facet, rows, i, v);
            let e = (v, tally(facet, rows, v));
            assert(list.contains(e));
            let k = list.index_of(e);
            assert(list[k].0 == v);
        }
    }
    lemma_tallies(facet, rows, list);
    lemma_counts_are_tallies(facet, rows, list);
}

/// The pick-list of a facet.
pub open spec fn pick_list(facet: Facet, rows: Seq<Seq<Seq<char>>>) -> Seq<(Seq<char>, nat)> {
    choose|list: Seq<(Seq<char>, nat)>| is_pick_list(facet, rows, list)
}

/// Each entry stands before all later ones.
spec fn in_list_order(list: Seq<(Seq<char>, nat)>) -> bool {
    forall|i: int, j: int|
        0 <= i < j < list.len() ==> listed_before(#[trigger] list[i], #[trigger] list[j])
}

proof fn lemma_entry_inserted(list: Seq<(Seq<char>, nat)>, e: (Seq<char>, nat)) -> (longer: Seq<
    (Seq<char>, nat),
>)
    requires
        in_list_order(list),
        forall|i: int| 0 <= i < list.len() ==> (#[trigger] list[i]).0 != e.0,
    ensures
        in_list_order(longer),
        forall|x: (Seq<char>, nat)| #[trigger]
            longer.contains(x) <==> list.contains(x) || x == e,
    decreases list.len(),
{
    if list.len() == 0 {
        let longer = seq![e];
        assert(longer[0] == e);
        longer
    } else {
        let last = list.last();
        let rest = list.drop_last();
        lemma_order_total(last, e, last);
        if listed_before(last, e) {
            let longer = list.push(e);
            assert forall|i: int, j: int| 0 <= i < j < longer.len() implies listed_before(
                #[trigger] longer[i],
                #[trigger] longer[j],
            ) by {
                if j == list.len() {
                    if i < list.len() - 1 {
                        assert(listed_before(list[i], list[list.len() - 1]));
                    }
                    lemma_order_total(list[i], last, e);
                } else {
                    assert(listed_before(list[i], list[j]));
                }
            }
            assert forall|x: (Seq<char>, nat)| #[trigger]
                longer.contains(x) <==> list.contains(x) || x == e by {
                assert(longer[list.len() as int] == e);
                if list.contains(x) {
                    let i = choose|i: int| 0 <= i < list.len() && list[i] == x;
                    assert(longer[i] == x);
                }
                if longer.contains(x) {
                    let i = choose|i: int| 0 <= i < longer.len() && longer[i] == x;
                    if i < list.len() {
                        assert(list[i] == x);
                    }
                }
            }
            longer
        } else {
            assert(list[list.len() - 1].0 != e.0);
            assert forall|i: int| 0 <= i < rest.len() implies (#[trigger] rest[i]).0 != e.0 by {
                assert(list[i].0 != e.0);
            }
            assert forall|i: int, j: int| 0 <= i < j < rest.len() implies listed_before(
                #[trigger] rest[i],
                #[trigger] rest[j],
            ) by {
                assert(listed_before(list[i], list[j]));
            }
            let inner = lemma_entry_inserted(rest, e);
            let longer = inner.push(last);
            assert forall|i: int, j: int| 0 <= i < j < longer.len() implies listed_before(
                #[trigger] longer[i],
                #[trigger] longer[j],
            ) by {
                if j == inner.len() {
                    assert(inner.contains(inner[i]));
                    if inner[i] != e {
                        let k = choose|k: int| 0 <= k < rest.len() && rest[k] == inner[i];
                        assert(listed_before(list[k], list[list.len() - 1]));
                    }
                } else {
                    assert(listed_before(inner[i], inner[j]));
                }
            }
            assert forall|x: (Seq<char>, nat)| #[trigger]
                longer.contains(x) <==> list.contains(x) || x == e by {
                assert(inner.contains(x) <==> rest.contains(x) || x == e);
                assert(longer[inner.len() as int] == last);
                if inner.contains(x) {
                    let i = choose|i: int| 0 <= i < inner.len() && inner[i] == x;
                    assert(longer[i] == x);
                }
                if longer.contains(x) {
                    let i = choose|i: int| 0 <= i < longer.len() && longer[i] == x;
                    if i < inner.len() {
                        assert(inner[i] == x);
                    }
                }
                if rest.contains(x) {
                    let i = choose|i: int| 0 <= i < rest.len() && rest[i] == x;
                    assert(list[i] == x);
                }
                if list.contains(x) {
                    let i = choose|i: int| 0 <= i < list.len() && list[i] == x;
                    if i < rest.len() {
                        assert(rest[i] == x);
                    }
                }
                assert(list[list.len() - 1] == last);
            }
            longer
        }
    }
}

proof fn lemma_entry_removed(list: Seq<(Seq<char>, nat)>, k: int)
    requires
        in_list_order(list),
        0 <= k < list.len(),
    ensures
        in_list_order(list.remove(k)),
        forall|x: (Seq<char>, nat)| #[trigger]
            list.remove(k).contains(x) <==> list.contains(x) && x != list[k],
{
    let shorter = list.remove(k);
    assert forall|i: int, j: int| 0 <= i < j < shorter.len() implies listed_before(
        #[trigger] shorter[i],
        #[trigger] shorter[j],
    ) by {
        let a = if i < k { i } else { i + 1 };
        let b = if j < k { j } else { j + 1 };
        assert(listed_before(list[a], list[b]));
    }
    assert forall|x: (Seq<char>, nat)| #[trigger]
        shorter.contains(x) <==> list.contains(x) && x != list[k] by {
        if shorter.contains(x) {
            let i = choose|i: int| 0 <= i < shorter.len() && shorter[i] == x;
            let a = if i < k { i } else { i + 1 };
            assert(list[a] == x);
            lemma_order_total(x, x, x);
            if x == list[k] {
                if a < k {
                    assert(listed_before(list[a], list[k]));
                } else {
                    assert(listed_before(list[k], list[a]));
                }
            }
        }
        if list.contains(x) && x != list[k] {
            let a = choose|a: int| 0 <= a < list.len() && list[a] == x;
            assert(shorter[if a < k { a } else { a - 1 }] == x);
        }
    }
}

proof fn lemma_pick_list_grows(
    facet: Facet,
    rows: Seq<Seq<Seq<char>>>,
    before: Seq<(Seq<char>, nat)>,
) -> (list: Seq<(Seq<char>, nat)>)
    requires
        rows.len() > 0,
        is_pick_list(facet, rows.drop_last(), before),
    ensures
        is_pick_list(facet, rows, list),
{
    let rest = rows.drop_last();
    match facet_value(facet, rows.last()) {
        None => {
            assert forall|v: Seq<char>| #[trigger] tally(facet, rows, v) == tally(
                facet,
                rest,
                v,
            ) by {}
            before
        },
        Some(value) => {
            let count = tally(facet, rest, value);
            let others = if count > 0 {
                let k = choose|k: int| 0 <= k < before.len() && before[k] == (value, count);
                lemma_entry_removed(before, k);
                before.remove(k)
            } else {
                before
            };
            assert forall|x: (Seq<char>, nat)| #[trigger]
                others.contains(x) <==> before.contains(x) && x.0 != value by {
                if before.contains(x) {
                    let i = choose|i: int| 0 <= i < before.len() && before[i] == x;
                    assert(before[i].1 == tally(facet, rest, before[i].0) && before[i].1 > 0);
                }
            }
            assert forall|i: int| 0 <= i < others.len() implies (#[trigger] others[i]).0
                != value by {
                assert(others.contains(others[i]));
            }
            let list = lemma_entry_inserted(others, (value, count + 1));
            assert forall|i: int| 0 <= i < list.len() implies (#[trigger] list[i]).1 == tally(
                facet,
                rows,
                list[i].0,
            ) && list[i].1 > 0 by {
                assert(list.contains(list[i]));
                if list[i] != (value, count + 1) {
                    assert(others.contains(list[i]));
                    let k = choose|k: int| 0 <= k < before.len() && before[k] == list[i];
                    assert(before[k].1 == tally(facet, rest, before[k].0) && before[k].1 > 0);
                }
            }
            assert forall|v: Seq<char>| #[trigger] tally(facet, rows, v) > 0 implies list.contains(
                (v, tally(facet, rows, v)),
            ) by {
                if v != value {
                    assert(tally(facet, rest, v) > 0);
                    assert(others.contains((v, tally(facet, rest, v))));
                }
                assert(list.contains((v, tally(facet, rows, v))));
            }
            list
        },
    }
}

/// Whatever the rows, a facet has its pick-list.
pub proof fn law_pick_list_exists(facet: Facet, rows: Seq<Seq<Seq<char>>>)
    ensures
        is_pick_list(facet, rows, pick_list(facet, rows)),
    decreases rows.len(),
{
    if rows.len() == 0 {
        let list = Seq::<(Seq<char>, nat)>::empty();
        assert(is_pick_list(facet, rows, list));
    } else {
        let rest = rows.drop_last();
        law_pick_list_exists(facet, rest);
        let list = lemma_pick_list_grows(facet, rows, pick_list(facet, rest));
        assert(is_pick_list(facet, rows, list));
    }
}

/// One line of the facet table.
pub open spec fn facet_line(facet: Facet, entry: (Seq<char>, nat)) -> Seq<Seq<char>> {
    seq![facet.title(), entry.0, crate::number::digits(entry.1)]
}

/// The lines of one facet.
pub open spec fn facet_lines(facet: Facet, rows: Seq<Seq<Seq<char>>>) -> Seq<Seq<Seq<char>>> {
    pick_list(facet, rows).map_values(|e: (Seq<char>, nat)| facet_line(facet, e))
}

/// The header of the facet table.
pub open spec fn facet_header() -> Seq<Seq<char>> {
    seq!["dimension"@, "value"@, "count"@]
}

/// The facet table: the header, then the facets in the order of their names.
pub open spec fn facet_table(rows: Seq<Seq<Seq<char>>>) -> Seq<Seq<Seq<char>>> {
    seq![facet_header()] + facet_lines(Facet::Camera, rows) + facet_lines(Facet::DateMonth, rows)
        + facet_lines(Facet::MediaType, rows) + facet_lines(Facet::Place, rows) + facet_lines(
        Facet::Resolution,
        rows,
    )
}

fn three_fields(a: String, b: String, c: String) -> (row: Vec<String>)
    ensures
        crate::text::views(row@) == seq![a@, b@, c@],
        row@.len() == 3,
{
    let mut row: Vec<String> = Vec::new();
    row.push(a);
    row.push(b);
    row.push(c);
    proof {
        assert(crate::text::views(row@) == seq![a@, b@, c@]);
    }
    row
}

fn push_facet_lines(facet: Facet, rows: &Vec<Vec<String>>, table: &mut Vec<Vec<String>>)
    requires
        forall|i: int| 0 <= i < old(table)@.len() ==> (#[trigger] old(table)@[i])@.len() == 3,
    ensures
        crate::csv_text::rows_view(final(table)@) == crate::csv_text::rows_view(old(table)@)
            + facet_lines(facet, crate::csv_text::rows_view(rows@)),
        forall|i: int| 0 <= i < final(table)@.len() ==> (#[trigger] final(table)@[i])@.len() == 3,
{
    let list = facet_entries(facet, rows);
    let ghost all = crate::csv_text::rows_view(rows@);
    let ghost picks = pick_list(facet, all);
    let ghost lines = facet_lines(facet, all);
    let ghost start = crate::csv_text::rows_view(table@);
    proof {
        law_pick_list_is_unique(facet, all, picks, entries_view(list@));
    }
    for i in 0..list.len()
        invariant
            picks == entries_view(list@),
            lines == picks.map_values(|e: (Seq<char>, nat)| facet_line(facet, e)),
            crate::csv_text::rows_view(table@) == start + lines.take(i as int),
            forall|k: int| 0 <= k < table@.len() ==> (#[trigger] table@[k])@.len() == 3,
    {
        let ghost before = crate::csv_text::rows_view(table@);
        let e: &(String, usize) = &list[i];
        table.push(three_fields(facet.title_text(), e.0.clone(), decimal(e.1 as u64)));
        proof {
            assert(lines[i as int] == facet_line(facet, picks[i as int]));
            assert(crate::csv_text::rows_view(table@) == before.push(lines[i as int]));
            assert(lines.take(i + 1) == lines.take(i as int).push(lines[i as int]));
            assert(start + lines.take(i + 1) == (start + lines.take(i as int)).push(
                lines[i as int],
            ));
        }
    }
    proof {
        assert(lines.take(list@.len() as int) == lines);
    }
}

/// The facet table of index rows.
pub fn facet_table_of(rows: &Vec<Vec<String>>) -> (table: Vec<Vec<String>>)
    ensures
        crate::csv_text::rows_view(table@) == facet_table(crate::csv_text::rows_view(rows@)),
        forall|i: int| 0 <= i < table@.len() ==> (#[trigger] table@[i])@.len() == 3,
{
    let mut table: Vec<Vec<String>> = Vec::new();
    table.push(three_fields("dimension".to_owned(), "value".to_owned(), "count".to_owned()));
    proof {
        assert(crate::csv_text::rows_view(table@) == seq![facet_header()]);
    }
    push_facet_lines(Facet::Camera, rows, &mut table);
    push_facet_lines(Facet::DateMonth, rows, &mut table);
    push_facet_lines(Facet::MediaType, rows, &mut table);
    push_facet_lines(Facet::Place, rows, &mut table);
    push_facet_lines(Facet::Resolution, rows, &mut table);
    table
}

/// The data rows of several index files, file after file.
pub open spec fn rows_of_files(files: Seq<Vec<u8>>) -> Seq<Seq<Seq<char>>>
    decreases files.len(),
{
    if files.len() == 0 {
        seq![]
    } else {
        rows_of_files(files.drop_last()) + crate::csv_text::csv_rows(files.last()@)
    }
}

/// Each file holds the text of a table.
pub open spec fn hold_tables(files: Seq<Vec<u8>>, tables: Seq<Seq<Seq<Seq<char>>>>) -> bool {
    &&& tables.len() == files.len()
    &&& forall|i: int|
        0 <= i < files.len() ==> crate::csv_text::csv_text(#[trigger] tables[i]) == files[i]@
            && crate::csv_text::is_table(tables[i])
}

/// The data rows of several tables, table after table.
pub open spec fn data_rows(tables: Seq<Seq<Seq<Seq<char>>>>) -> Seq<Seq<Seq<char>>>
    decreases tables.len(),
{
    if tables.len() == 0 {
        seq![]
    } else {
        data_rows(tables.drop_last()) + tables.last().skip(1)
    }
}

/// The text of the facet file for an index that is kept in several files. Where
/// these hold tables, it counts the values of all data rows of these.
pub fn facets_csv(files: &Vec<Vec<u8>>) -> (text: Vec<u8>)
    ensures
        text@ == crate::csv_text::csv_text(facet_table(rows_of_files(files@))),
        forall|tables: Seq<Seq<Seq<Seq<char>>>>| #[trigger]
            hold_tables(files@, tables) ==> text@ == crate::csv_text::csv_text(
                facet_table(data_rows(tables)),
            ),
{
    let mut rows: Vec<Vec<String>> = Vec::new();
    proof {
        assert(crate::csv_text::rows_view(rows@) == Seq::<Seq<Seq<char>>>::empty());
    }
    for i in 0..files.len()
        invariant
            crate::csv_text::rows_view(rows@) == rows_of_files(files@.take(i as int)),
            forall|tables: Seq<Seq<Seq<Seq<char>>>>| #[trigger]
                hold_tables(files@, tables) ==> crate::csv_text::rows_view(rows@) == data_rows(
                    tables.take(i as int),
                ),
    {
        let ghost before = rows@;
        let mut more = read_rows(&files[i]);
        let ghost added = more@;
        rows.append(&mut more);
        proof {
            assert(files@.take(i + 1).drop_last() == files@.take(i as int));
            assert(rows@ == before + added);
            assert(crate::csv_text::rows_view(rows@) == crate::csv_text::rows_view(before)
                + crate::csv_text::rows_view(added));
            assert forall|tables: Seq<Seq<Seq<Seq<char>>>>| #[trigger]
                hold_tables(files@, tables) implies crate::csv_text::rows_view(rows@) == data_rows(
                tables.take(i + 1),
            ) by {
                assert(tables.take(i + 1).drop_last() == tables.take(i as int));
                assert(crate::csv_text::csv_text(tables[i as int]) == files@[i as int]@);
            }
        }
    }
    proof {
        assert(files@.take(files@.len() as int) == files@);
        assert forall|tables: Seq<Seq<Seq<Seq<char>>>>| #[trigger]
            hold_tables(files@, tables) implies crate::csv_text::rows_view(rows@) == data_rows(
            tables,
        ) by {
            assert(tables.take(files@.len() as int) == tables);
        }
    }
    let table = facet_table_of(&rows);
    write_table(&table)
}

/// A text gives a month exactly where it begins with four digits, a dash or a
/// colon, and two digits. The month has the four digits of the year, a dash and
/// the two digits behind the separator.
pub proof fn law_month_keeps_year_and_month(dt: Seq<char>)
    ensures
        month_of(dt) is Some <==> dt.len() >= 7 && ('0' <= dt[0] <= '9') && ('0' <= dt[1] <= '9')
            && ('0' <= dt[2] <= '9') && ('0' <= dt[3] <= '9') && (dt[4] == '-' || dt[4] == ':') && (
        '0' <= dt[5] <= '9') && ('0' <= dt[6] <= '9'),
        month_of(dt) matches Some(m) ==> m.len() == 7 && m[0] == dt[0] && m[1] == dt[1] && m[2]
            == dt[2] && m[3] == dt[3] && m[4] == '-' && m[5] == dt[5] && m[6] == dt[6],
{
    if dt.len() >= 7 {
        let (year, month) = (dt.take(4), dt.subrange(5, 7));
        assert(year[0] == dt[0] && year[1] == dt[1] && year[2] == dt[2] && year[3] == dt[3]);
        assert(month[0] == dt[5] && month[1] == dt[6]);
        if begins_with_month(dt) {
            let m = year + seq!['-'] + month;
            assert(month_of(dt) == Some(m));
            assert(m[0] == year[0] && m[1] == year[1] && m[2] == year[2] && m[3] == year[3]);
            assert(m[4] == '-' && m[5] == month[0] && m[6] == month[1]);
        }
    }
}

/// Two dates give the same month exactly where they have the same year and
/// month, digit by digit; what follows does not matter.
pub proof fn law_dates_share_a_month(a: Seq<char>, b: Seq<char>)
    requires
        month_of(a) is Some,
        month_of(b) is Some,
    ensures
        month_of(a) == month_of(b) <==> a[0] == b[0] && a[1] == b[1] && a[2] == b[2] && a[3] == b[3]
            && a[5] == b[5] && a[6] == b[6],
{
    law_month_keeps_year_and_month(a);
    law_month_keeps_year_and_month(b);
    let (m, n) = (month_of(a)->0, month_of(b)->0);
    if a[0] == b[0] && a[1] == b[1] && a[2] == b[2] && a[3] == b[3] && a[5] == b[5] && a[6]
        == b[6] {
        assert(m =~= n);
    }
}

/// Each facet is taken from the column of the index with its title, that of the
/// months from the dates.
pub proof fn law_facets_are_taken_from_their_columns()
    ensures
        crate::rows::header()[Facet::Camera.column() as int] == "camera"@,
        crate::rows::header()[Facet::DateMonth.column() as int] == "date_taken"@,
        crate::rows::header()[Facet::MediaType.column() as int] == "media_type"@,
        crate::rows::header()[Facet::Place.column() as int] == "place"@,
        crate::rows::header()[Facet::Resolution.column() as int] == "resolution"@,
        Facet::Camera.title() == "camera"@,
        Facet::DateMonth.title() == "date_month"@,
        Facet::MediaType.title() == "media_type"@,
        Facet::Place.title() == "place"@,
        Facet::Resolution.title() == "resolution"@,
{
}

/// A row adds to a facet what its column holds between white space, and to the
/// months that of its date. A blank column adds nothing.
pub proof fn law_row_adds_its_columns(row: Seq<Seq<char>>)
    requires
        row.len() > 7,
    ensures
        forall|facet: Facet|
            facet != Facet::DateMonth ==> #[trigger] facet_value(facet, row) == (
            if crate::text::trim(row[facet.column() as int]).len() > 0 {
                Some(crate::text::trim(row[facet.column() as int]))
            } else {
                None
            }),
        facet_value(Facet::DateMonth, row) == month_of(crate::text::trim(row[2])),
{
}

/// The count of a value is the number of rows that add it.
pub proof fn law_count_is_the_number_of_rows(
    facet: Facet,
    rows: Seq<Seq<Seq<char>>>,
    value: Seq<char>,
)
    ensures
        tally(facet, rows, value) == rows.filter(
            |row: Seq<Seq<char>>| facet_value(facet, row) == Some(value),
        ).len(),
    decreases rows.len(),
{
    reveal(Seq::filter);
    if rows.len() > 0 {
        law_count_is_the_number_of_rows(facet, rows.drop_last(), value);
    }
}

/// A pick-list begins with its most frequent value and goes on with ever less
/// frequent ones; among equally frequent ones the order of strings decides. No
/// value stands in it twice.
pub proof fn law_frequent_values_come_first(
    facet: Facet,
    rows: Seq<Seq<Seq<char>>>,
    list: Seq<(Seq<char>, nat)>,
    i: int,
    j: int,
)
    requires
        is_pick_list(facet, rows, list),
        0 <= i < j < list.len(),
    ensures
        list[i].1 >= list[j].1,
        list[j].1 > 0,
        list[i].1 == list[j].1 ==> crate::text::less(list[i].0, list[j].0),
        list[i].0 != list[j].0,
        list[i].1 == tally(facet, rows, list[i].0),
{
    assert(listed_before(list[i], list[j]));
    crate::text::law_text_order_is_strict_and_total(list[i].0, list[j].0, list[j].0);
}

proof fn lemma_lines_of_facet(
    facet: Facet,
    rows: Seq<Seq<Seq<char>>>,
    value: Seq<char>,
) -> (k: int)
    requires
        tally(facet, rows, value) > 0,
    ensures
        0 <= k < facet_lines(facet, rows).len(),
        facet_lines(facet, rows)[k] == facet_line(facet, (value, tally(facet, rows, value))),
{
    law_pick_list_exists(facet, rows);
    let list = pick_list(facet, rows);
    let e = (value, tally(facet, rows, value));
    assert(list.contains(e));
    let k = choose|k: int| 0 <= k < list.len() && list[k] == e;
    k
}

/// The facet table has a line for each value that a row adds to a facet: the
/// title of the facet, the value, and how many rows add it.
pub proof fn law_every_value_has_its_line(facet: Facet, rows: Seq<Seq<Seq<char>>>, i: int)
    requires
        0 <= i < rows.len(),
        facet_value(facet, rows[i]) is Some,
    ensures
        ({
            let value = facet_value(facet, rows[i])->0;
            let count = rows.filter(
                |row: Seq<Seq<char>>| facet_value(facet, row) == Some(value),
            ).len();
            facet_table(rows).contains(
                seq![facet.title(), value, crate::number::digits(count)],
            )
        }),
{
    let value = facet_value(facet, rows[i])->0;
    lemma_tally_of_row(facet, rows, i, value);
    law_count_is_the_number_of_rows(facet, rows, value);
    let k = lemma_lines_of_facet(facet, rows, value);
    let line = facet_lines(facet, rows)[k];
    let a = facet_lines(Facet::Camera, rows);
    let b = facet_lines(Facet::DateMonth, rows);
    let c = facet_lines(Facet::MediaType, rows);
    let d = facet_lines(Facet::Place, rows);
    let e = facet_lines(Facet::Resolution, rows);
    let table = facet_table(rows);
    match facet {
        Facet::Camera => {
            assert(table[1 + k] == line);
        },
        Facet::DateMonth => {
            assert(table[1 + a.len() + k] == line);
        },
        Facet::MediaType => {
            assert(table[1 + a.len() + b.len() + k] == line);
        },
        Facet::Place => {
            assert(table[1 + a.len() + b.len() + c.len() + k] == line);
        },
        Facet::Resolution => {
            assert(table[1 + a.len() + b.len() + c.len() + d.len() + k] == line);
        },
    }
}

proof fn lemma_line_tells(facet: Facet, rows: Seq<Seq<Seq<char>>>, k: int)
    requires
        0 <= k < facet_lines(facet, rows).len(),
    ensures
        tells_of_rows(facet, rows, facet_lines(facet, rows)[k]),
{
    law_pick_list_exists(facet, rows);
    let list = pick_list(facet, rows);
    law_count_is_the_number_of_rows(facet, rows, list[k].0);
    let hits = rows.filter(|row: Seq<Seq<char>>| facet_value(facet, row) == Some(list[k].0));
    assert(hits.len() == list[k].1);
    lemma_tally_has_row(facet, rows, list[k].0);
}

proof fn lemma_tally_has_row(facet: Facet, rows: Seq<Seq<Seq<char>>>, value: Seq<char>)
    requires
        tally(facet, rows, value) > 0,
    ensures
        exists|i: int|
            0 <= i < rows.len() && facet_value(facet, #[trigger] rows[i]) == Some(value),
    decreases rows.len(),
{
    if facet_value(facet, rows.last()) == Some(value) {
        assert(facet_value(facet, rows[rows.len() - 1]) == Some(value));
    } else {
        let fewer = rows.drop_last();
        lemma_tally_has_row(facet, fewer, value);
        let i = choose|i: int|
            0 <= i < fewer.len() && facet_value(facet, #[trigger] fewer[i]) == Some(value);
        assert(rows[i] == fewer[i]);
    }
}

/// A line of the table gives the title of the facet, a value that some row adds
/// to it, and how many rows add it.
pub open spec fn tells_of_rows(
    facet: Facet,
    rows: Seq<Seq<Seq<char>>>,
    line: Seq<Seq<char>>,
) -> bool {
    &&& line.len() == 3
    &&& line[0] == facet.title()
    &&& line[2] == crate::number::digits(
        rows.filter(|row: Seq<Seq<char>>| facet_value(facet, row) == Some(line[1])).len(),
    )
    &&& exists|i: int|
        0 <= i < rows.len() && facet_value(facet, #[trigger] rows[i]) == Some(line[1])
}

/// Behind its header the facet table holds nothing but values of rows, each with
/// its count.
pub proof fn law_table_holds_only_values(rows: Seq<Seq<Seq<char>>>, k: int)
    requires
        0 <= k < facet_table(rows).len(),
    ensures
        k == 0 ==> facet_table(rows)[k] == seq!["dimension"@, "value"@, "count"@],
        k > 0 ==> exists|facet: Facet| #[trigger]
            tells_of_rows(facet, rows, facet_table(rows)[k]),
{
    let a = facet_lines(Facet::Camera, rows);
    let b = facet_lines(Facet::DateMonth, rows);
    let c = facet_lines(Facet::MediaType, rows);
    let d = facet_lines(Facet::Place, rows);
    let e = facet_lines(Facet::Resolution, rows);
    let table = facet_table(rows);
    let (p, q) = (1 + a.len(), 1 + a.len() + b.len());
    let (r, s) = (q + c.len(), q + c.len() + d.len());
    if 1 <= k < p {
        assert(table[k] == a[k - 1]);
        lemma_line_tells(Facet::Camera, rows, k - 1);
    } else if p <= k < q {
        assert(table[k] == b[k - p]);
        lemma_line_tells(Facet::DateMonth, rows, k - p);
    } else if q <= k < r {
        assert(table[k] == c[k - q]);
        lemma_line_tells(Facet::MediaType, rows, k - q);
    } else if r <= k < s {
        assert(table[k] == d[k - r]);
        lemma_line_tells(Facet::Place, rows, k - r);
    } else if s <= k {
        assert(table[k] == e[k - s]);
        lemma_line_tells(Facet::Resolution, rows, k - s);
    }
}

/// A row that is too short for a column adds nothing to its facet.
pub proof fn law_short_rows_add_nothing(facet: Facet, row: Seq<Seq<char>>)
    requires
        row.len() <= facet.column(),
    ensures
        facet_value(facet, row) is None,
{
}

/// The rows of all files count, file by file, none left out and none twice.
pub proof fn law_rows_of_all_files_count(a: Seq<Vec<u8>>, file: Vec<u8>, b: Seq<Vec<u8>>)
    ensures
        rows_of_files(a + seq![file] + b) == rows_of_files(a) + crate::csv_text::csv_rows(file@)
            + rows_of_files(b),
        rows_of_files(seq![]) == Seq::<Seq<Seq<char>>>::empty(),
    decreases b.len(),
{
    let all = a + seq![file] + b;
    if b.len() == 0 {
        assert(all.drop_last() =~= a);
        assert(rows_of_files(b) =~= Seq::<Seq<Seq<char>>>::empty());
        assert(rows_of_files(all) =~= rows_of_files(a) + crate::csv_text::csv_rows(file@)
            + rows_of_files(b));
    } else {
        law_rows_of_all_files_count(a, file, b.drop_last());
        assert(all.drop_last() =~= a + seq![file] + b.drop_last());
        assert(all.last() == b.last());
        assert(rows_of_files(all) =~= rows_of_files(a) + crate::csv_text::csv_rows(file@)
            + rows_of_files(b));
    }
}

/// The data rows of tables are their rows behind the header.
pub proof fn law_data_rows_leave_out_headers(
    a: Seq<Seq<Seq<Seq<char>>>>,
    header: Seq<Seq<char>>,
    rows: Seq<Seq<Seq<char>>>,
)
    ensures
        data_rows(a.push(seq![header] + rows)) == data_rows(a) + rows,
        data_rows(seq![]) == Seq::<Seq<Seq<char>>>::empty(),
{
    let all = a.push(seq![header] + rows);
    assert(all.drop_last() =~= a);
    assert((seq![header] + rows).skip(1) =~= rows);
}

} // verus!
