//! Text as sequences of characters: trimming, lines, prefixes, numbers and
//! the order of strings.

use vstd::prelude::*;

verus! {

/// Whether `c` has the Unicode property White_Space.
pub open spec fn white_space(c: char) -> bool {
    ||| '\u{9}' <= c <= '\u{d}'
    ||| c == ' '
    ||| c == '\u{85}'
    ||| c == '\u{a0}'
    ||| c == '\u{1680}'
    ||| '\u{2000}' <= c <= '\u{200a}'
    ||| c == '\u{2028}'
    ||| c == '\u{2029}'
    ||| c == '\u{202f}'
    ||| c == '\u{205f}'
    ||| c == '\u{3000}'
}

/// `char::is_whitespace` tells the characters with the Unicode property
/// White_Space.
pub assume_specification[ char::is_whitespace ](c: char) -> (b: bool)
    ensures
        b == white_space(c),
;

/// The lowercase form that Unicode gives a text with other than ASCII
/// characters.
pub uninterp spec fn wide_lowercase(s: Seq<char>) -> Seq<char>;

/// `c` with the letters `A` to `Z` made small.
pub open spec fn ascii_lower(c: char) -> char {
    if 'A' <= c <= 'Z' {
        (c as u32 + 32) as char
    } else {
        c
    }
}

/// Only ASCII characters.
pub open spec fn all_ascii(s: Seq<char>) -> bool {
    forall|i: int| 0 <= i < s.len() ==> (#[trigger] s[i] as u32) < 128
}

/// The lowercase form that Unicode gives a text. Of an ASCII text only the
/// letters `A` to `Z` change.
pub open spec fn lowercase(s: Seq<char>) -> Seq<char> {
    if all_ascii(s) {
        s.map_values(|c: char| ascii_lower(c))
    } else {
        wide_lowercase(s)
    }
}

/// `str::to_lowercase` gives the Unicode lowercase form.
pub assume_specification[ str::to_lowercase ](s: &str) -> (r: String)
    ensures
        !all_ascii(s@) ==> r@ == wide_lowercase(s@),
        r@ == lowercase(s@),
;

/// `String::push` appends one character.
pub assume_specification[ String::push ](s: &mut String, c: char)
    ensures
        final(s)@ == old(s)@.push(c),
;

/// The characters of `s` in order.
pub fn chars_of(s: &str) -> (v: Vec<char>)
    ensures
        v@ == s@,
{
    let mut v: Vec<char> = Vec::new();
    for c in it: s.chars()
        invariant
            v@ == it.seq().take(it.index() as int),
            it.seq() == s@,
    {
        v.push(c);
    }
    v
}

/// The text of the characters `from..to`.
pub fn text_of(v: &[char], from: usize, to: usize) -> (s: String)
    requires
        from <= to <= v@.len(),
    ensures
        s@ == v@.subrange(from as int, to as int),
{
    let mut s = String::new();
    for i in from..to
        invariant
            from <= to <= v@.len(),
            s@ == v@.subrange(from as int, i as int),
    {
        s.push(v[i]);
    }
    s
}

/// Whether two texts are the same.
pub fn same_text(a: &str, b: &str) -> (r: bool)
    ensures
        r == (a@ == b@),
{
    a.to_owned() == b.to_owned()
}

/// `a` followed by `b`.
pub fn joined(a: &str, b: &str) -> (s: String)
    ensures
        s@ == a@ + b@,
{
    a.to_owned().concat(b)
}

/// Characters that are cut off the ends of a text.
#[derive(Clone, Copy)]
pub enum CharClass {
    /// Unicode white space.
    White,
    /// The double quote.
    Quote,
    /// The slash.
    Slash,
    /// What numbers or marks the items of a list: digits, dots, spaces, stars.
    ListMark,
}

impl CharClass {
    pub open spec fn has(self, c: char) -> bool {
        match self {
            CharClass::White => white_space(c),
            CharClass::Quote => c == '"',
            CharClass::Slash => c == '/',
            CharClass::ListMark => '0' <= c <= '9' || c == '.' || c == ' ' || c == '*',
        }
    }
}

fn in_class(class: CharClass, c: char) -> (b: bool)
    ensures
        b == class.has(c),
{
    match class {
        CharClass::White => c.is_whitespace(),
        CharClass::Quote => c == '"',
        CharClass::Slash => c == '/',
        CharClass::ListMark => '0' <= c && c <= '9' || c == '.' || c == ' ' || c == '*',
    }
}

/// `s` from its first character outside `class` on.
pub open spec fn drop_leading(s: Seq<char>, class: CharClass) -> Seq<char>
    decreases s.len(),
{
    if s.len() > 0 && class.has(s[0]) {
        drop_leading(s.drop_first(), class)
    } else {
        s
    }
}

/// `s` up to its last character outside `class`.
pub open spec fn drop_trailing(s: Seq<char>, class: CharClass) -> Seq<char>
    decreases s.len(),
{
    if s.len() > 0 && class.has(s.last()) {
        drop_trailing(s.drop_last(), class)
    } else {
        s
    }
}

/// `s` without white space at its ends.
pub open spec fn trim(s: Seq<char>) -> Seq<char> {
    drop_trailing(drop_leading(s, CharClass::White), CharClass::White)
}

/// Where `v[from..to]` goes on once the leading characters of `class` are cut.
pub fn leading_end(v: &[char], from: usize, to: usize, class: CharClass) -> (i: usize)
    requires
        from <= to <= v@.len(),
    ensures
        from <= i <= to,
        v@.subrange(i as int, to as int) == drop_leading(
            v@.subrange(from as int, to as int),
            class,
        ),
{
    let mut i = from;
    while i < to && in_class(class, v[i])
        invariant
            from <= i <= to <= v@.len(),
            drop_leading(v@.subrange(i as int, to as int), class) == drop_leading(
                v@.subrange(from as int, to as int),
                class,
            ),
        decreases to - i,
    {
        proof {
            assert(v@.subrange(i as int, to as int).drop_first() == v@.subrange(i + 1, to as int));
        }
        i = i + 1;
    }
    i
}

/// Where `v[from..to]` ends once the trailing characters of `class` are cut.
pub fn trailing_start(v: &[char], from: usize, to: usize, class: CharClass) -> (i: usize)
    requires
        from <= to <= v@.len(),
    ensures
        from <= i <= to,
        v@.subrange(from as int, i as int) == drop_trailing(
            v@.subrange(from as int, to as int),
            class,
        ),
{
    let mut i = to;
    while i > from && in_class(class, v[i - 1])
        invariant
            from <= i <= to <= v@.len(),
            drop_trailing(v@.subrange(from as int, i as int), class) == drop_trailing(
                v@.subrange(from as int, to as int),
                class,
            ),
        decreases i,
    {
        proof {
            assert(v@.subrange(from as int, i as int).drop_last() == v@.subrange(
                from as int,
                i - 1,
            ));
        }
        i = i - 1;
    }
    i
}

/// `s` without white space at its ends.
pub fn trimmed(s: &str) -> (r: String)
    ensures
        r@ == trim(s@),
{
    let v = chars_of(s);
    let n = v.len();
    proof {
        assert(v@.subrange(0, n as int) == v@);
    }
    let a = leading_end(&v, 0, n, CharClass::White);
    let b = trailing_start(&v, a, n, CharClass::White);
    text_of(&v, a, b)
}

/// `s` without characters of `class` at its end.
pub fn without_trailing(s: &str, class: CharClass) -> (r: String)
    ensures
        r@ == drop_trailing(s@, class),
{
    let v = chars_of(s);
    let n = v.len();
    proof {
        assert(v@.subrange(0, n as int) == v@);
    }
    let b = trailing_start(&v, 0, n, class);
    text_of(&v, 0, b)
}

/// `s` without characters of `class` at its start.
pub fn without_leading(s: &str, class: CharClass) -> (r: String)
    ensures
        r@ == drop_leading(s@, class),
{
    let v = chars_of(s);
    let n = v.len();
    proof {
        assert(v@.subrange(0, n as int) == v@);
    }
    let a = leading_end(&v, 0, n, class);
    text_of(&v, a, n)
}

/// The first position of `c` in `s`, or the length of `s` where there is none.
pub open spec fn find(s: Seq<char>, c: char) -> nat
    decreases s.len(),
{
    if s.len() == 0 || s[0] == c {
        0
    } else {
        1 + find(s.drop_first(), c)
    }
}

/// `find` gives the first position of the character it looks for.
pub proof fn lemma_find(s: Seq<char>, c: char)
    ensures
        find(s, c) <= s.len(),
        find(s, c) < s.len() ==> s[find(s, c) as int] == c,
        forall|i: int| 0 <= i < find(s, c) ==> #[trigger] s[i] != c,
    decreases s.len(),
{
    if s.len() > 0 && s[0] != c {
        let rest = s.drop_first();
        lemma_find(rest, c);
        assert forall|i: int| 0 <= i < find(s, c) implies #[trigger] s[i] != c by {
            if i > 0 {
                assert(rest[i - 1] != c);
            }
        }
    }
}

/// The first position of `c` in `v[from..]`, counted from the start of `v`.
pub fn find_from(v: &[char], from: usize, c: char) -> (i: usize)
    requires
        from <= v@.len(),
    ensures
        from <= i <= v@.len(),
        i - from == find(v@.skip(from as int), c),
{
    let mut i = from;
    while i < v.len() && v[i] != c
        invariant
            from <= i <= v@.len(),
            (i - from) + find(v@.skip(i as int), c) == find(v@.skip(from as int), c),
        decreases v@.len() - i,
    {
        proof {
            assert(v@.skip(i as int).drop_first() == v@.skip(i + 1));
        }
        i = i + 1;
    }
    i
}

/// A line without the carriage return that ends it, if one does.
pub open spec fn without_return(s: Seq<char>) -> Seq<char> {
    if s.len() > 0 && s.last() == '\r' {
        s.drop_last()
    } else {
        s
    }
}

/// The lines of a text: each ends with a line feed or a carriage return and a
/// line feed, which the last one may lack.
pub open spec fn lines(s: Seq<char>) -> Seq<Seq<char>>
    decreases s.len(),
{
    if s.len() == 0 {
        seq![]
    } else {
        let n = find(s, '\n');
        if n >= s.len() {
            seq![s]
        } else {
            seq![without_return(s.take(n as int))] + lines(s.skip(n as int + 1))
        }
    }
}

/// The contents of a list of strings.
pub open spec fn views(v: Seq<String>) -> Seq<Seq<char>> {
    v.map_values(|s: String| s@)
}

/// The lines of `s`.
pub fn lines_of(s: &str) -> (r: Vec<String>)
    ensures
        views(r@) == lines(s@),
{
    let v = chars_of(s);
    let mut r: Vec<String> = Vec::new();
    let mut i: usize = 0;
    proof {
        assert(v@.skip(0) == v@);
        assert(views(r@) + lines(v@) == lines(v@));
    }
    while i < v.len()
        invariant
            v@ == s@,
            i <= v@.len(),
            views(r@) + lines(v@.skip(i as int)) == lines(s@),
        decreases v@.len() - i,
    {
        let ghost rest = v@.skip(i as int);
        let ghost before = views(r@);
        let n = find_from(&v, i, '\n');
        if n >= v.len() {
            r.push(text_of(&v, i, n));
            proof {
                assert(v@.subrange(i as int, n as int) == rest);
                assert(views(r@) == before.push(rest));
                assert(v@.skip(n as int) == Seq::<char>::empty());
                assert(lines(rest) == seq![rest]);
                assert(before.push(rest) + lines(v@.skip(n as int)) == before + seq![rest]);
            }
            i = n;
        } else {
            let end = if n > i && v[n - 1] == '\r' {
                n - 1
            } else {
                n
            };
            r.push(text_of(&v, i, end));
            proof {
                let line = without_return(rest.take(n - i));
                assert(v@.subrange(i as int, end as int) == line);
                assert(views(r@) == before.push(line));
                assert(rest.skip(n - i + 1) == v@.skip(n + 1));
                assert(lines(rest) == seq![line] + lines(v@.skip(n + 1)));
                assert(before.push(line) + lines(v@.skip(n + 1)) == before + lines(rest));
            }
            i = n + 1;
        }
    }
    proof {
        assert(v@.skip(i as int) == Seq::<char>::empty());
        assert(views(r@) + lines(v@.skip(i as int)) == views(r@));
    }
    r
}

/// `s` begins with `prefix`.
pub open spec fn starts_with(s: Seq<char>, prefix: Seq<char>) -> bool {
    prefix.len() <= s.len() && s.take(prefix.len() as int) == prefix
}

/// What follows `prefix` in `s`, where `s` begins with it.
pub fn after_prefix(s: &str, prefix: &str) -> (r: Option<String>)
    ensures
        r is Some <==> starts_with(s@, prefix@),
        r matches Some(rest) ==> rest@ == s@.skip(prefix@.len() as int),
{
    let v = chars_of(s);
    let p = chars_of(prefix);
    if p.len() > v.len() {
        return None;
    }
    for i in 0..p.len()
        invariant
            v@ == s@,
            p@ == prefix@,
            p@.len() <= v@.len(),
            forall|k: int| 0 <= k < i ==> v@[k] == p@[k],
    {
        if v[i] != p[i] {
            proof {
                assert(s@.take(prefix@.len() as int)[i as int] == v@[i as int]);
            }
            return None;
        }
    }
    proof {
        assert(s@.take(prefix@.len() as int) == prefix@);
        assert(v@.subrange(p@.len() as int, v@.len() as int) == s@.skip(prefix@.len() as int));
    }
    Some(text_of(&v, p.len(), v.len()))
}

/// Two texts that differ at most in the case of ASCII letters.
pub open spec fn same_ignoring_ascii_case(a: Seq<char>, b: Seq<char>) -> bool {
    a.map_values(|c: char| ascii_lower(c)) == b.map_values(|c: char| ascii_lower(c))
}

fn lower_char(c: char) -> (r: char)
    ensures
        r == ascii_lower(c),
{
    if 'A' <= c && c <= 'Z' {
        ((c as u8) + 32) as char
    } else {
        c
    }
}

/// Whether two texts differ at most in the case of ASCII letters.
pub fn same_text_ignoring_ascii_case(a: &str, b: &str) -> (r: bool)
    ensures
        r == same_ignoring_ascii_case(a@, b@),
{
    let x = chars_of(a);
    let y = chars_of(b);
    let ghost p = a@.map_values(|c: char| ascii_lower(c));
    let ghost q = b@.map_values(|c: char| ascii_lower(c));
    if x.len() != y.len() {
        proof {
            assert(p.len() != q.len());
        }
        return false;
    }
    for i in 0..x.len()
        invariant
            x@ == a@,
            y@ == b@,
            x@.len() == y@.len(),
            p == a@.map_values(|c: char| ascii_lower(c)),
            q == b@.map_values(|c: char| ascii_lower(c)),
            forall|k: int| 0 <= k < i ==> p[k] == q[k],
    {
        if lower_char(x[i]) != lower_char(y[i]) {
            proof {
                assert(p[i as int] != q[i as int]);
            }
            return false;
        }
    }
    proof {
        assert(p == q);
    }
    true
}

/// `a` comes before `b` in the order of strings, which compares character by
/// character.
pub open spec fn less(a: Seq<char>, b: Seq<char>) -> bool
    decreases a.len(),
{
    if a.len() == 0 {
        b.len() > 0
    } else if b.len() == 0 || a[0] > b[0] {
        false
    } else {
        a[0] < b[0] || less(a.drop_first(), b.drop_first())
    }
}

/// Whether `a` comes before `b` in the order of strings.
pub fn text_less(a: &str, b: &str) -> (r: bool)
    ensures
        r == less(a@, b@),
{
    let x = chars_of(a);
    let y = chars_of(b);
    let mut i: usize = 0;
    proof {
        assert(x@.skip(0) == x@ && y@.skip(0) == y@);
    }
    while i < x.len() && i < y.len()
        invariant
            x@ == a@,
            y@ == b@,
            i <= x@.len(),
            i <= y@.len(),
            less(a@, b@) == less(x@.skip(i as int), y@.skip(i as int)),
        decreases x@.len() - i,
    {
        if x[i] != y[i] {
            return x[i] < y[i];
        }
        proof {
            assert(x@.skip(i as int).drop_first() == x@.skip(i + 1));
            assert(y@.skip(i as int).drop_first() == y@.skip(i + 1));
        }
        i = i + 1;
    }
    i < y.len()
}

/// The order of strings is a strict total order.
pub proof fn law_text_order_is_strict_and_total(a: Seq<char>, b: Seq<char>, c: Seq<char>)
    ensures
        !less(a, a),
        less(a, b) ==> !less(b, a),
        less(a, b) && less(b, c) ==> less(a, c),
        a != b ==> less(a, b) || less(b, a),
    decreases a.len(),
{
    if a.len() > 0 && b.len() > 0 && c.len() > 0 {
        law_text_order_is_strict_and_total(a.drop_first(), b.drop_first(), c.drop_first());
    } else if a.len() > 0 && b.len() > 0 {
        law_text_order_is_strict_and_total(a.drop_first(), b.drop_first(), c);
    } else if a.len() > 0 {
        law_text_order_is_strict_and_total(a.drop_first(), b, c);
    }
    if a.len() > 0 && b.len() > 0 && a[0] == b[0] && a != b {
        assert(a == seq![a[0]] + a.drop_first());
        assert(b == seq![b[0]] + b.drop_first());
        assert(a.drop_first() != b.drop_first());
    }
    if a.len() == 0 && b.len() == 0 {
        assert(a == b);
    }
}

/// Whether `s` is among the texts of `list`.
pub fn has_text(list: &Vec<String>, s: &str) -> (r: bool)
    ensures
        r == views(list@).contains(s@),
{
    let ghost all = views(list@);
    for i in 0..list.len()
        invariant
            all == views(list@),
            forall|k: int| 0 <= k < i ==> #[trigger] all[k] != s@,
    {
        proof {
            assert(all[i as int] == list@[i as int]@);
        }
        if same_text(&list[i], s) {
            return true;
        }
    }
    false
}

/// The parts of `s` between the characters `c`.
pub open spec fn parts(s: Seq<char>, c: char) -> Seq<Seq<char>>
    decreases s.len(),
{
    let n = find(s, c);
    if n >= s.len() {
        seq![s]
    } else {
        seq![s.take(n as int)] + parts(s.skip(n as int + 1), c)
    }
}

/// The parts of `s` between the characters `c`.
pub fn parts_of(s: &str, c: char) -> (r: Vec<String>)
    ensures
        views(r@) == parts(s@, c),
{
    let v = chars_of(s);
    let mut r: Vec<String> = Vec::new();
    let mut i: usize = 0;
    proof {
        assert(v@.skip(0) == v@);
        assert(views(r@) + parts(v@, c) == parts(v@, c));
    }
    loop
        invariant
            v@ == s@,
            i <= v@.len(),
            views(r@) + parts(v@.skip(i as int), c) == parts(s@, c),
        decreases v@.len() - i,
    {
        let ghost rest = v@.skip(i as int);
        let ghost before = views(r@);
        let n = find_from(&v, i, c);
        r.push(text_of(&v, i, n));
        proof {
            assert(rest.take(n - i) == v@.subrange(i as int, n as int));
            assert(views(r@) == before.push(rest.take(n - i)));
        }
        if n >= v.len() {
            proof {
                assert(rest.take(n - i) == rest);
                assert(before + seq![rest] == before.push(rest));
            }
            return r;
        }
        proof {
            assert(rest.skip(n - i + 1) == v@.skip(n + 1));
            assert(before + (seq![rest.take(n - i)] + parts(v@.skip(n + 1), c)) == before.push(
                rest.take(n - i),
            ) + parts(v@.skip(n + 1), c));
        }
        i = n + 1;
    }
}

/// Texts one behind the other with `separator` between them.
pub open spec fn joined_with(list: Seq<Seq<char>>, separator: Seq<char>) -> Seq<char>
    decreases list.len(),
{
    if list.len() == 0 {
        seq![]
    } else if list.len() == 1 {
        list[0]
    } else {
        joined_with(list.drop_last(), separator) + separator + list.last()
    }
}

/// The texts of `list` with `separator` between them.
pub fn join(list: &Vec<String>, separator: &str) -> (s: String)
    ensures
        s@ == joined_with(views(list@), separator@),
{
    let mut s = String::new();
    let ghost all = views(list@);
    for i in 0..list.len()
        invariant
            all == views(list@),
            s@ == joined_with(all.take(i as int), separator@),
    {
        let ghost now = all.take(i + 1);
        proof {
            assert(now.drop_last() == all.take(i as int));
            assert(now.last() == list@[i as int]@);
        }
        if i == 0 {
            s = list[i].clone();
            proof {
                assert(now[0] == list@[0]@);
            }
        } else {
            s = joined(&joined(&s, separator), &list[i]);
        }
    }
    proof {
        assert(all.take(list@.len() as int) == all);
    }
    s
}

/// What is cut off the start of a text are characters of the class, and the rest
/// does not begin with one.
pub proof fn law_leading_characters_are_cut(s: Seq<char>, class: CharClass)
    ensures
        drop_leading(s, class).len() <= s.len(),
        drop_leading(s, class) == s.skip(s.len() - drop_leading(s, class).len()),
        forall|i: int|
            0 <= i < s.len() - drop_leading(s, class).len() ==> class.has(#[trigger] s[i]),
        drop_leading(s, class).len() > 0 ==> !class.has(drop_leading(s, class)[0]),
    decreases s.len(),
{
    if s.len() > 0 && class.has(s[0]) {
        let rest = s.drop_first();
        law_leading_characters_are_cut(rest, class);
        let n = s.len() - drop_leading(s, class).len();
        assert(rest.skip(n - 1) == s.skip(n));
        assert forall|i: int| 0 <= i < n implies class.has(#[trigger] s[i]) by {
            if i > 0 {
                assert(rest[i - 1] == s[i]);
            }
        }
    } else {
        assert(s.skip(0) == s);
    }
}

/// What is cut off the end of a text are characters of the class, and the rest
/// does not end with one.
pub proof fn law_trailing_characters_are_cut(s: Seq<char>, class: CharClass)
    ensures
        drop_trailing(s, class).len() <= s.len(),
        drop_trailing(s, class) == s.take(drop_trailing(s, class).len() as int),
        forall|i: int| drop_trailing(s, class).len() <= i < s.len() ==> class.has(#[trigger] s[i]),
        drop_trailing(s, class).len() > 0 ==> !class.has(drop_trailing(s, class).last()),
    decreases s.len(),
{
    if s.len() > 0 && class.has(s.last()) {
        let rest = s.drop_last();
        law_trailing_characters_are_cut(rest, class);
        let n = drop_trailing(s, class).len() as int;
        assert(rest.take(n) == s.take(n));
        assert forall|i: int| n <= i < s.len() implies class.has(#[trigger] s[i]) by {
            if i < rest.len() {
                assert(rest[i] == s[i]);
            }
        }
    } else {
        assert(s.take(s.len() as int) == s);
    }
}

/// Trimming takes away the white space before and behind a text and leaves the
/// rest as it is.
pub proof fn law_trim_takes_only_white_space(before: Seq<char>, s: Seq<char>, behind: Seq<char>)
    requires
        forall|i: int| 0 <= i < before.len() ==> white_space(#[trigger] before[i]),
        forall|i: int| 0 <= i < behind.len() ==> white_space(#[trigger] behind[i]),
        s.len() > 0 ==> !white_space(s[0]) && !white_space(s.last()),
    ensures
        trim(before + s + behind) == s,
{
    let all = before + s + behind;
    law_leading_characters_are_cut(all, CharClass::White);
    let t = drop_leading(all, CharClass::White);
    let k = all.len() - t.len();
    law_trailing_characters_are_cut(t, CharClass::White);
    let r = drop_trailing(t, CharClass::White);
    if s.len() > 0 {
        let n = before.len() as int;
        assert(all[n] == s[0]);
        if k > n {
            assert(CharClass::White.has(all[n]));
        }
        if k < n {
            assert(t[0] == all[k]);
            assert(all[k] == before[k]);
        }
        assert(t == s + behind);
        let m = r.len() as int;
        if m < s.len() {
            assert(t[s.len() - 1] == s.last());
            assert(CharClass::White.has(t[s.len() - 1]));
        }
        if m > s.len() {
            assert(r.last() == t[m - 1]);
            assert(t[m - 1] == behind[m - 1 - s.len()]);
        }
        assert(r == s);
    } else {
        if t.len() > 0 {
            assert(t[0] == all[k]);
            if k < before.len() {
                assert(all[k] == before[k]);
            } else {
                assert(all[k] == behind[k - before.len()]);
            }
        }
        assert(t == s);
        assert(r == s);
    }
}

/// A trimmed text has no white space at its ends, is a part of the text, and
/// stays as it is when it is trimmed again.
pub proof fn law_trimmed_text_is_a_part(s: Seq<char>)
    ensures
        trim(s).len() > 0 ==> !white_space(trim(s)[0]) && !white_space(trim(s).last()),
        exists|k: int|
            0 <= k <= s.len() - trim(s).len() && #[trigger] s.subrange(k, k + trim(s).len())
                == trim(s),
        trim(trim(s)) == trim(s),
{
    law_leading_characters_are_cut(s, CharClass::White);
    let t = drop_leading(s, CharClass::White);
    law_trailing_characters_are_cut(t, CharClass::White);
    let r = trim(s);
    let k = s.len() - t.len();
    if r.len() > 0 {
        assert(r[0] == t[0]);
    }
    assert(s.subrange(k, k + r.len()) == r);
    law_trim_takes_only_white_space(seq![], r, seq![]);
    assert(Seq::<char>::empty() + r + Seq::<char>::empty() == r);
}

/// A line ends at a line feed, or at a carriage return and a line feed; what
/// follows are the other lines. The last line needs no end.
pub proof fn law_lines_end_at_line_feeds(line: Seq<char>, rest: Seq<char>)
    requires
        !line.contains('\n'),
        line.len() > 0 ==> line.last() != '\r',
    ensures
        lines(line + seq!['\n'] + rest) == seq![line] + lines(rest),
        lines(line + seq!['\r', '\n'] + rest) == seq![line] + lines(rest),
        line.len() > 0 ==> lines(line) == seq![line],
        lines(seq![]) == Seq::<Seq<char>>::empty(),
{
    let s = line + seq!['\n'] + rest;
    let t = line + seq!['\r', '\n'] + rest;
    let n = line.len() as int;
    assert forall|i: int| 0 <= i < n implies #[trigger] line[i] != '\n' by {
        assert(line.contains(line[i]));
    }
    lemma_find(s, '\n');
    assert(s[n] == '\n');
    if find(s, '\n') < n {
        assert(s[find(s, '\n') as int] == line[find(s, '\n') as int]);
    }
    assert(s.take(n) == line);
    assert(s.skip(n + 1) == rest);
    lemma_find(t, '\n');
    assert(t[n] == '\r' && t[n + 1] == '\n');
    if find(t, '\n') < n {
        assert(t[find(t, '\n') as int] == line[find(t, '\n') as int]);
    }
    assert(t.take(n + 1) == line.push('\r'));
    assert(line.push('\r').drop_last() == line);
    assert(t.skip(n + 2) == rest);
    lemma_find(line, '\n');
    if find(line, '\n') < n {
        assert(line[find(line, '\n') as int] != '\n');
    }
}

/// The parts of a text, joined by what separates them, are the text, and the
/// separator is in none of them.
pub proof fn law_parts_make_up_the_text(s: Seq<char>, c: char)
    ensures
        joined_with(parts(s, c), seq![c]) == s,
        parts(s, c).len() > 0,
        forall|i: int| 0 <= i < parts(s, c).len() ==> !(#[trigger] parts(s, c)[i]).contains(c),
    decreases s.len(),
{
    let n = find(s, c) as int;
    lemma_find(s, c);
    if n >= s.len() {
        assert(parts(s, c) == seq![s]);
        assert forall|i: int| 0 <= i < parts(s, c).len() implies !(#[trigger] parts(
            s,
            c,
        )[i]).contains(c) by {
            if s.contains(c) {
                let k = choose|k: int| 0 <= k < s.len() && s[k] == c;
                assert(s[k] != c);
            }
        }
    } else {
        let rest = s.skip(n + 1);
        let first = s.take(n);
        law_parts_make_up_the_text(rest, c);
        let more = parts(rest, c);
        let all = seq![first] + more;
        assert(parts(s, c) == all);
        assert forall|i: int| 0 <= i < all.len() implies !(#[trigger] all[i]).contains(c) by {
            if i == 0 {
                if first.contains(c) {
                    let k = choose|k: int| 0 <= k < first.len() && first[k] == c;
                    assert(s[k] != c);
                }
            } else {
                assert(all[i] == more[i - 1]);
            }
        }
        law_joined_texts_keep_their_order(seq![first], more, seq![c]);
        assert(joined_with(seq![first], seq![c]) == first);
        assert(first + seq![c] + rest == s);
    }
}

/// Texts are joined in their order, with one separator between any two.
pub proof fn law_joined_texts_keep_their_order(
    a: Seq<Seq<char>>,
    b: Seq<Seq<char>>,
    separator: Seq<char>,
)
    ensures
        a.len() > 0 && b.len() > 0 ==> joined_with(a + b, separator) == joined_with(a, separator)
            + separator + joined_with(b, separator),
        forall|x: Seq<char>| #[trigger] joined_with(seq![x], separator) == x,
        joined_with(seq![], separator) == Seq::<char>::empty(),
    decreases b.len(),
{
    if a.len() > 0 && b.len() > 0 {
        let all = a + b;
        assert(all.drop_last() == a + b.drop_last());
        assert(all.last() == b.last());
        if b.len() == 1 {
            assert(b.drop_last() == Seq::<Seq<char>>::empty());
            assert(a + b.drop_last() == a);
            assert(joined_with(b, separator) == b.last());
        } else {
            law_joined_texts_keep_their_order(a, b.drop_last(), separator);
            let x = joined_with(a, separator);
            let y = joined_with(b.drop_last(), separator);
            assert(x + separator + y + separator + b.last() == x + separator + (y + separator
                + b.last()));
        }
    }
}

/// Two texts that differ only in the case of ASCII letters have the same length,
/// and where they differ one has the capital letter and the other the small one.
pub proof fn law_case_is_all_that_differs(a: Seq<char>, b: Seq<char>)
    ensures
        same_ignoring_ascii_case(a, b) <==> a.len() == b.len() && forall|i: int|
            0 <= i < a.len() ==> {
                ||| #[trigger] a[i] == b[i]
                ||| 'A' <= a[i] <= 'Z' && b[i] as int == a[i] as int + 32
                ||| 'A' <= b[i] <= 'Z' && a[i] as int == b[i] as int + 32
            },
{
    let f = |c: char| ascii_lower(c);
    let (p, q) = (a.map_values(f), b.map_values(f));
    if p == q {
        assert(p.len() == q.len());
        assert forall|i: int| 0 <= i < a.len() implies {
            ||| #[trigger] a[i] == b[i]
            ||| 'A' <= a[i] <= 'Z' && b[i] as int == a[i] as int + 32
            ||| 'A' <= b[i] <= 'Z' && a[i] as int == b[i] as int + 32
        } by {
            assert(p[i] == q[i]);
        }
    }
    if a.len() == b.len() && forall|i: int|
        0 <= i < a.len() ==> {
            ||| #[trigger] a[i] == b[i]
            ||| 'A' <= a[i] <= 'Z' && b[i] as int == a[i] as int + 32
            ||| 'A' <= b[i] <= 'Z' && a[i] as int == b[i] as int + 32
        } {
        assert forall|i: int| 0 <= i < a.len() implies p[i] == q[i] by {
            assert(a[i] == a[i]);
        }
        assert(p =~= q);
    }
}

/// The first character in which two texts differ decides which comes first; a
/// text comes before those that go on behind it.
pub proof fn law_first_difference_decides(
    common: Seq<char>,
    a: Seq<char>,
    b: Seq<char>,
)
    ensures
        a.len() > 0 && b.len() > 0 && a[0] < b[0] ==> less(common + a, common + b) && !less(
            common + b,
            common + a,
        ),
        b.len() > 0 ==> less(common, common + b) && !less(common + b, common),
    decreases common.len(),
{
    if common.len() > 0 {
        let rest = common.drop_first();
        law_first_difference_decides(rest, a, b);
        assert((common + a).drop_first() == rest + a);
        assert((common + b).drop_first() == rest + b);
        assert((common + a)[0] == common[0] && (common + b)[0] == common[0]);
    } else {
        assert(common + a == a);
        assert(common + b == b);
        if b.len() > 0 {
            assert(common.len() == 0);
        }
    }
}

} // verus!
