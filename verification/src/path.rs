//! File names, stems and extensions of slash-separated paths. Where paths have
//! other separators too, the bare name of a file is handed in: it has none, and
//! is its own file name.

use crate::text::{chars_of, text_of};
use vstd::prelude::*;

verus! {

/// The last position of `c` in `s`, or -1 where there is none.
pub open spec fn find_last(s: Seq<char>, c: char) -> int
    decreases s.len(),
{
    if s.len() == 0 {
        -1
    } else if s.last() == c {
        s.len() - 1
    } else {
        find_last(s.drop_last(), c)
    }
}

/// `find_last` gives the last position of the character it looks for.
pub proof fn lemma_find_last(s: Seq<char>, c: char)
    ensures
        -1 <= find_last(s, c) < s.len(),
        find_last(s, c) >= 0 ==> s[find_last(s, c)] == c,
        forall|i: int| find_last(s, c) < i < s.len() ==> #[trigger] s[i] != c,
    decreases s.len(),
{
    if s.len() > 0 && s.last() != c {
        let rest = s.drop_last();
        lemma_find_last(rest, c);
        assert forall|i: int| find_last(s, c) < i < s.len() implies #[trigger] s[i] != c by {
            if i < s.len() - 1 {
                assert(rest[i] != c);
            }
        }
    }
}

/// The name of the file or directory that a path leads to: its last part,
/// where trailing slashes and parts that are a single dot do not count. The
/// root, the empty path and a path that ends in two dots have none.
pub open spec fn file_name(path: Seq<char>) -> Option<Seq<char>>
    decreases path.len(),
    via file_name_shrinks
{
    let cut = find_last(path, '/');
    let name = path.skip(cut + 1);
    if name.len() == 0 || name == seq!['.'] {
        if cut < 0 {
            None
        } else {
            file_name(path.take(cut))
        }
    } else if name == seq!['.', '.'] {
        None
    } else {
        Some(name)
    }
}

#[via_fn]
proof fn file_name_shrinks(path: Seq<char>) {
    lemma_find_last(path, '/');
}

/// What follows the last dot of a file name, unless that dot begins the name.
pub open spec fn name_extension(name: Seq<char>) -> Option<Seq<char>> {
    let dot = find_last(name, '.');
    if dot > 0 {
        Some(name.skip(dot + 1))
    } else {
        None
    }
}

/// The extension of the file that a path leads to.
pub open spec fn extension(path: Seq<char>) -> Option<Seq<char>> {
    match file_name(path) {
        Some(name) => name_extension(name),
        None => None,
    }
}

/// What comes before the last dot of a file name; the whole name where there
/// is no dot or only one that begins it.
pub open spec fn name_stem(name: Seq<char>) -> Seq<char> {
    let dot = find_last(name, '.');
    if dot > 0 {
        name.take(dot)
    } else {
        name
    }
}

/// One past the last position of `c` in `v[from..to]`, or `from`.
fn after_last(v: &[char], from: usize, to: usize, c: char) -> (i: usize)
    requires
        from <= to <= v@.len(),
    ensures
        from <= i <= to,
        find_last(v@.subrange(from as int, to as int), c) == i - from - 1,
{
    let mut i = to;
    while i > from && v[i - 1] != c
        invariant
            from <= i <= to <= v@.len(),
            find_last(v@.subrange(from as int, i as int), c) == find_last(
                v@.subrange(from as int, to as int),
                c,
            ),
        decreases i,
    {
        proof {
            assert(v@.subrange(from as int, i as int).drop_last() == v@.subrange(
                from as int,
                i - 1,
            ));
        }
        i = i - 1;
    }
    proof {
        if i > from {
            assert(v@.subrange(from as int, i as int).last() == c);
        } else {
            assert(v@.subrange(from as int, i as int).len() == 0);
        }
    }
    i
}

/// Where the file name of `v[..to]` begins and ends.
fn name_range(v: &[char], to: usize) -> (r: Option<(usize, usize)>)
    requires
        to <= v@.len(),
    ensures
        match r {
            Some((a, b)) => a < b <= to && file_name(v@.take(to as int)) == Some(
                v@.subrange(a as int, b as int),
            ),
            None => file_name(v@.take(to as int)) is None,
        },
    decreases to,
{
    let a = after_last(v, 0, to, '/');
    let ghost path = v@.take(to as int);
    let ghost name = v@.subrange(a as int, to as int);
    proof {
        assert(v@.subrange(0, to as int) == path);
        assert(path.skip(a as int) == name);
        lemma_find_last(path, '/');
    }
    if a == to || to - a == 1 && v[a] == '.' {
        proof {
            assert(name.len() == 1 ==> name == seq!['.']);
        }
        if a == 0 {
            None
        } else {
            proof {
                assert(path.take(a - 1) == v@.take(a - 1));
            }
            name_range(v, a - 1)
        }
    } else if to - a == 2 && v[a] == '.' && v[a + 1] == '.' {
        proof {
            assert(name == seq!['.', '.']);
        }
        None
    } else {
        proof {
            if name == seq!['.'] {
                assert(name[0] == '.');
            }
            if name == seq!['.', '.'] {
                assert(name[0] == '.' && name[1] == '.');
            }
        }
        Some((a, to))
    }
}

/// The extension of the file that `path` leads to.
pub fn extension_of(path: &str) -> (r: Option<String>)
    ensures
        match r {
            Some(e) => extension(path@) == Some(e@),
            None => extension(path@) is None,
        },
{
    let v = chars_of(path);
    proof {
        assert(v@.take(v@.len() as int) == path@);
    }
    match name_range(&v, v.len()) {
        Some((a, b)) => {
            let dot = after_last(&v, a, b, '.');
            if dot > a + 1 {
                proof {
                    assert(v@.subrange(a as int, b as int).skip(dot - a) == v@.subrange(
                        dot as int,
                        b as int,
                    ));
                }
                Some(text_of(&v, dot, b))
            } else {
                None
            }
        },
        None => None,
    }
}

/// The stem of the file that `path` leads to.
pub fn stem_of(path: &str) -> (r: Option<String>)
    ensures
        match r {
            Some(s) => file_name(path@) is Some && s@ == name_stem(file_name(path@)->0),
            None => file_name(path@) is None,
        },
{
    let v = chars_of(path);
    proof {
        assert(v@.take(v@.len() as int) == path@);
    }
    match name_range(&v, v.len()) {
        Some((a, b)) => {
            let dot = after_last(&v, a, b, '.');
            if dot > a + 1 {
                proof {
                    assert(v@.subrange(a as int, b as int).take(dot - a - 1) == v@.subrange(
                        a as int,
                        dot - 1,
                    ));
                }
                Some(text_of(&v, a, dot - 1))
            } else {
                Some(text_of(&v, a, b))
            }
        },
        None => None,
    }
}

/// A bare name is its own file name, so its extension and its stem are told by
/// the name alone, whatever separates the parts of a path.
pub proof fn law_bare_name_is_its_own_file_name(name: Seq<char>)
    requires
        !name.contains('/'),
        name.len() > 0,
        name != seq!['.'],
        name != seq!['.', '.'],
    ensures
        file_name(name) == Some(name),
        extension(name) == name_extension(name),
{
    lemma_find_last(name, '/');
    let cut = find_last(name, '/');
    if cut >= 0 {
        assert(name.contains(name[cut]));
    }
    assert(name.skip(0) == name);
}

proof fn lemma_last_dot(stem: Seq<char>, ext: Seq<char>)
    requires
        !ext.contains('.'),
    ensures
        find_last(stem + seq!['.'] + ext, '.') == stem.len(),
{
    let name = stem + seq!['.'] + ext;
    lemma_find_last(name, '.');
    let k = find_last(name, '.');
    let n = stem.len() as int;
    assert(name[n] == '.');
    if k > n {
        assert(name[k] == ext[k - n - 1]);
        assert(ext.contains(ext[k - n - 1]));
    }
}

/// The name of a file is a stem, a dot and an extension, in whatever directory the
/// file lies: the extension is what follows the last dot, and the stem what comes
/// before it.
pub proof fn law_name_is_stem_and_extension(
    directory: Seq<char>,
    stem: Seq<char>,
    ext: Seq<char>,
)
    requires
        directory.len() > 0 ==> directory.last() == '/',
        stem.len() > 0,
        stem != seq!['.'],
        !stem.contains('/'),
        !ext.contains('/'),
        !ext.contains('.'),
    ensures
        ({
            let name = stem + seq!['.'] + ext;
            &&& file_name(directory + name) == Some(name)
            &&& extension(directory + name) == Some(ext)
            &&& name_stem(name) == stem
        }),
{
    let name = stem + seq!['.'] + ext;
    let path = directory + name;
    let n = directory.len() as int;
    lemma_last_dot(stem, ext);
    assert(name.skip(stem.len() as int + 1) =~= ext);
    assert(name.take(stem.len() as int) =~= stem);
    lemma_find_last(path, '/');
    let cut = find_last(path, '/');
    assert(n > 0 ==> path[n - 1] == '/');
    if cut >= n {
        let c = path[cut];
        assert(c == name[cut - n]);
        if cut - n < stem.len() {
            assert(stem.contains(stem[cut - n]));
        } else if cut - n > stem.len() {
            assert(ext.contains(ext[cut - n - stem.len() - 1]));
        }
    }
    assert(cut == n - 1);
    assert(path.skip(n) =~= name);
    if name == seq!['.', '.'] {
        assert(stem =~= seq!['.']) by {
            assert(name.len() == 2);
            assert(stem.len() == 1);
            assert(stem[0] == name[0]);
        }
    }
    if name == seq!['.'] {
        assert(name.len() == 1);
    }
}

/// A name that begins with its only dot has no extension, nor has one without a
/// dot; such a name is its own stem.
pub proof fn law_hidden_files_have_no_extension(name: Seq<char>)
    requires
        !name.contains('.'),
    ensures
        name_extension(name) is None,
        name_stem(name) == name,
        name_extension(seq!['.'] + name) is None,
        name_stem(seq!['.'] + name) == seq!['.'] + name,
{
    lemma_find_last(name, '.');
    let k = find_last(name, '.');
    if k >= 0 {
        assert(name.contains(name[k]));
    }
    let hidden = seq!['.'] + name;
    lemma_find_last(hidden, '.');
    let j = find_last(hidden, '.');
    if j > 0 {
        assert(hidden[j] == name[j - 1]);
        assert(name.contains(name[j - 1]));
    }
}

/// Slashes at the end of a path do not matter, nor does a dot behind them; two dots
/// lead to no name.
pub proof fn law_trailing_slashes_do_not_matter(path: Seq<char>)
    ensures
        file_name(path + seq!['/']) == file_name(path),
        file_name(path + seq!['/', '.']) == file_name(path),
        file_name(path + seq!['/', '.', '.']) is None,
        file_name(seq![]) is None,
{
    let n = path.len() as int;
    let a = path + seq!['/'];
    lemma_find_last(a, '/');
    assert(a[n] == '/');
    assert(find_last(a, '/') == n);
    assert(a.skip(n + 1) =~= Seq::<char>::empty());
    assert(a.take(n) =~= path);
    let b = path + seq!['/', '.'];
    lemma_find_last(b, '/');
    assert(b[n] == '/' && b[n + 1] == '.');
    assert(find_last(b, '/') == n);
    assert(b.skip(n + 1) =~= seq!['.']);
    assert(b.take(n) =~= path);
    let c = path + seq!['/', '.', '.'];
    lemma_find_last(c, '/');
    assert(c[n] == '/' && c[n + 1] == '.' && c[n + 2] == '.');
    assert(find_last(c, '/') == n);
    assert(c.skip(n + 1) =~= seq!['.', '.']);
    assert(seq!['.', '.'].len() == 2 && seq!['.'].len() == 1);
}

} // verus!
