//! Output files of the index: how chunk files are named and found again, and
//! which chunk a row goes to.

use crate::number::{only_digits, parse_number, zero_filled_decimal};
use crate::path::stem_of;
use crate::text::{after_prefix, chars_of, joined, text_of};
use vstd::prelude::*;

verus! {

/// The stem of an output path, or `index` where it has none.
pub open spec fn stem_text(out: Seq<char>) -> Seq<char> {
    match crate::path::file_name(out) {
        Some(name) => crate::path::name_stem(name),
        None => "index"@,
    }
}

/// The stem that chunk file names begin with.
pub fn chunk_stem(out: &str) -> (stem: String)
    ensures
        stem@ == stem_text(out@),
{
    match stem_of(out) {
        Some(stem) => stem,
        None => "index".to_owned(),
    }
}

/// The file name of chunk `n`: `stem_NNN.csv`, with at least three digits.
pub open spec fn chunk_name(stem: Seq<char>, n: nat) -> Seq<char> {
    stem + "_"@ + crate::number::zero_filled(crate::number::digits(n), 3) + ".csv"@
}

/// The file name of chunk `n`.
pub fn chunk_file_name(stem: &str, n: usize) -> (name: String)
    ensures
        name@ == chunk_name(stem@, n as nat),
{
    let number = zero_filled_decimal(n as u64, 3);
    joined(&joined(&joined(stem, "_"), &number), ".csv")
}

/// `s` ends with `suffix`.
pub open spec fn ends_with(s: Seq<char>, suffix: Seq<char>) -> bool {
    suffix.len() <= s.len() && s.skip(s.len() - suffix.len()) == suffix
}

/// The number of a chunk file: what stands between the stem with its
/// underscore and `.csv`, where that is a number of three or more digits.
pub open spec fn number_of_chunk(name: Seq<char>, stem: Seq<char>) -> Option<nat> {
    let prefix = stem + "_"@;
    let rest = name.skip(prefix.len() as int);
    let digits = rest.take(rest.len() - 4);
    if crate::text::starts_with(name, prefix) && ends_with(rest, ".csv"@) && digits.len() >= 3
        && crate::number::all_digits(digits) {
        crate::number::number(digits, usize::MAX as nat)
    } else {
        None
    }
}

/// The number of a chunk file.
pub fn chunk_number(name: &str, stem: &str) -> (r: Option<usize>)
    ensures
        match r {
            Some(n) => number_of_chunk(name@, stem@) == Some(n as nat),
            None => number_of_chunk(name@, stem@) is None,
        },
{
    let prefix = joined(stem, "_");
    let rest = match after_prefix(name, &prefix) {
        Some(rest) => rest,
        None => {
            return None;
        },
    };
    let v = chars_of(&rest);
    let n = v.len();
    proof {
        reveal_strlit(".csv");
        assert(".csv"@ == seq!['.', 'c', 's', 'v']);
        assert(".csv"@.len() == 4);
    }
    if n >= 4 && v[n - 4] == '.' && v[n - 3] == 'c' && v[n - 2] == 's' && v[n - 1] == 'v' {
        proof {
            assert(rest@.skip(n - 4) == ".csv"@);
            assert(rest@.take(n - 4) == v@.subrange(0, n - 4));
        }
        let digits = text_of(&v, 0, n - 4);
        if n < 7 || !only_digits(&digits) {
            return None;
        }
        match parse_number(&digits, usize::MAX as u64) {
            Some(k) => Some(k as usize),
            None => None,
        }
    } else {
        proof {
            if ends_with(rest@, ".csv"@) {
                let tail = rest@.skip(n - 4);
                assert(tail[0] == v@[n - 4] && tail[1] == v@[n - 3] && tail[2] == v@[n - 2]
                    && tail[3] == v@[n - 1]);
            }
        }
        None
    }
}

/// The number in the name of a chunk file is the number that it was named
/// with, whatever the stem.
pub proof fn law_chunk_name_tells_its_number(stem: Seq<char>, n: nat)
    requires
        n <= usize::MAX,
    ensures
        number_of_chunk(chunk_name(stem, n), stem) == Some(n),
{
    let prefix = stem + "_"@;
    let digits = crate::number::zero_filled(crate::number::digits(n), 3);
    let name = chunk_name(stem, n);
    reveal_strlit(".csv");
    assert(name.take(prefix.len() as int) == prefix);
    let rest = name.skip(prefix.len() as int);
    assert(rest == digits + ".csv"@);
    assert(rest.skip(rest.len() - 4) == ".csv"@);
    assert(rest.take(rest.len() - 4) == digits);
    crate::number::law_written_number_reads_back(n, 3, usize::MAX as nat);
}

/// Two chunks of one index do not share a file name.
pub proof fn law_chunk_names_differ(stem: Seq<char>, m: nat, n: nat)
    requires
        m <= usize::MAX,
        n <= usize::MAX,
        chunk_name(stem, m) == chunk_name(stem, n),
    ensures
        m == n,
{
    law_chunk_name_tells_its_number(stem, m);
    law_chunk_name_tells_its_number(stem, n);
}

/// `list` holds, for each chunk file among `names`, its number and its
/// position, by ascending number and, within a number, by position.
pub open spec fn is_chunk_list(
    names: Seq<Seq<char>>,
    stem: Seq<char>,
    list: Seq<(usize, usize)>,
) -> bool {
    &&& forall|i: int, j: int|
        0 <= i < j < list.len() ==> chunk_before(#[trigger] list[i], #[trigger] list[j])
    &&& forall|n: usize, p: usize| #[trigger]
        list.contains((n, p)) <==> p < names.len() && number_of_chunk(names[p as int], stem)
            == Some(n as nat)
}

/// The order of the chunk list.
pub open spec fn chunk_before(a: (usize, usize), b: (usize, usize)) -> bool {
    a.0 < b.0 || a.0 == b.0 && a.1 < b.1
}

/// The chunk files among the file names of a directory.
pub fn find_existing_chunks(names: &Vec<String>, stem: &str) -> (list: Vec<(usize, usize)>)
    ensures
        is_chunk_list(crate::text::views(names@), stem@, list@),
{
    let mut list: Vec<(usize, usize)> = Vec::new();
    let ghost all = crate::text::views(names@);
    proof {
        assert(is_chunk_list(all.take(0), stem@, list@));
    }
    for p in 0..names.len()
        invariant
            all == crate::text::views(names@),
            is_chunk_list(all.take(p as int), stem@, list@),
            forall|k: int| 0 <= k < list@.len() ==> (#[trigger] list@[k]).1 < p,
    {
        let ghost before = list@;
        match chunk_number(&names[p], stem) {
            Some(n) => {
                let mut at = list.len();
                while at > 0 && list[at - 1].0 > n
                    invariant
                        at <= list@.len(),
                        list@ == before,
                        forall|k: int| at <= k < list@.len() ==> (#[trigger] list@[k]).0 > n,
                    decreases at,
                {
                    at = at - 1;
                }
                proof {
                    assert forall|k: int| 0 <= k < at implies (#[trigger] before[k]).0 <= n by {
                        if k < at - 1 {
                            assert(chunk_before(before[k], before[at - 1]));
                        }
                    }
                    assert forall|k: int| 0 <= k < before.len() implies (#[trigger] before[k]).1
                        < p by {
                        assert(before.contains((before[k].0, before[k].1)));
                    }
                }
                list.insert(at, (n, p));
                proof {
                    lemma_inserted(before, list@, at as int, (n, p));
                    assert(all.take(p + 1)[p as int] == names@[p as int]@);
                    assert forall|m: usize, q: usize| #[trigger]
                        list@.contains((m, q)) <==> q < p + 1 && number_of_chunk(
                        all.take(p + 1)[q as int],
                        stem@,
                    ) == Some(m as nat) by {
                        if q < p {
                            assert(all.take(p + 1)[q as int] == all.take(p as int)[q as int]);
                        }
                        assert(before.contains((m, q)) <==> q < p && number_of_chunk(
                            all.take(p as int)[q as int],
                            stem@,
                        ) == Some(m as nat));
                    }
                }
            },
            None => {
                proof {
                    assert(all.take(p + 1)[p as int] == names@[p as int]@);
                    assert forall|m: usize, q: usize| #[trigger]
                        list@.contains((m, q)) <==> q < p + 1 && number_of_chunk(
                        all.take(p + 1)[q as int],
                        stem@,
                    ) == Some(m as nat) by {
                        if q < p {
                            assert(all.take(p + 1)[q as int] == all.take(p as int)[q as int]);
                        }
                    }
                }
            },
        }
        proof {
            assert forall|k: int| 0 <= k < list@.len() implies (#[trigger] list@[k]).1 < p + 1 by {
                assert(list@.contains((list@[k].0, list@[k].1)));
            }
        }
    }
    proof {
        assert(all.take(names@.len() as int) == all);
    }
    list
}

proof fn lemma_inserted(
    before: Seq<(usize, usize)>,
    after: Seq<(usize, usize)>,
    at: int,
    x: (usize, usize),
)
    requires
        0 <= at <= before.len(),
        after == before.insert(at, x),
    ensures
        forall|y: (usize, usize)| #[trigger]
            after.contains(y) <==> before.contains(y) || y == x,
{
    assert forall|y: (usize, usize)| #[trigger] after.contains(y) <==> before.contains(y) || y
        == x by {
        if after.contains(y) {
            let k = after.index_of(y);
            if k < at {
                assert(before[k] == y);
            } else if k > at {
                assert(before[k - 1] == y);
            }
        }
        if before.contains(y) {
            let k = before.index_of(y);
            if k < at {
                assert(after[k] == y);
            } else {
                assert(after[k + 1] == y);
            }
        }
        if y == x {
            assert(after[at] == y);
        }
    }
}

/// Where the next row goes: a chunk and the number of rows already in it.
/// `continuing` tells that the chunk exists and is appended to.
#[derive(Clone, Copy, PartialEq, Eq, Structural, Debug)]
pub struct ChunkCursor {
    pub chunk_no: usize,
    pub rows_in_chunk: usize,
    pub continuing: bool,
}

/// A run appends to an existing index.
pub open spec fn goes_on(resume: bool, rotate_rows: usize, has_chunks: bool, out_exists: bool) -> bool {
    resume && if rotate_rows > 0 {
        has_chunks
    } else {
        out_exists
    }
}

/// Whether a run appends to an existing index: it was asked to resume, and
/// there is something to resume.
pub fn appends(resume: bool, rotate_rows: usize, has_chunks: bool, out_exists: bool) -> (r: bool)
    ensures
        r == (resume && if rotate_rows > 0 {
            has_chunks
        } else {
            out_exists
        }),
        r == goes_on(resume, rotate_rows, has_chunks, out_exists),
{
    resume && if rotate_rows > 0 {
        has_chunks
    } else {
        out_exists
    }
}

/// Where a run begins to write. Without rotation, or without a chunk to go on
/// from, that is chunk 1; a resumed run goes on in the last chunk if it has
/// room and in the one behind it otherwise. `last_chunk` is 0 where there is
/// none.
pub open spec fn first_cursor(
    rotate_rows: usize,
    append: bool,
    last_chunk: usize,
    last_chunk_rows: usize,
) -> ChunkCursor {
    if rotate_rows == 0 || !append {
        ChunkCursor { chunk_no: 1, rows_in_chunk: 0, continuing: false }
    } else if last_chunk > 0 && last_chunk_rows < rotate_rows {
        ChunkCursor { chunk_no: last_chunk, rows_in_chunk: last_chunk_rows, continuing: true }
    } else {
        ChunkCursor { chunk_no: (last_chunk + 1) as usize, rows_in_chunk: 0, continuing: false }
    }
}

/// Where a run begins to write.
pub fn start_chunk(
    rotate_rows: usize,
    append: bool,
    last_chunk: usize,
    last_chunk_rows: usize,
) -> (c: ChunkCursor)
    requires
        rotate_rows > 0 && append && last_chunk_rows >= rotate_rows ==> last_chunk < usize::MAX,
    ensures
        c == first_cursor(rotate_rows, append, last_chunk, last_chunk_rows),
{
    if rotate_rows == 0 || !append {
        ChunkCursor { chunk_no: 1, rows_in_chunk: 0, continuing: false }
    } else if last_chunk > 0 && last_chunk_rows < rotate_rows {
        ChunkCursor { chunk_no: last_chunk, rows_in_chunk: last_chunk_rows, continuing: true }
    } else {
        ChunkCursor { chunk_no: last_chunk + 1, rows_in_chunk: 0, continuing: false }
    }
}

/// The chunk is full: the next row opens another.
pub open spec fn is_full(c: ChunkCursor, rotate_rows: usize) -> bool {
    rotate_rows > 0 && c.rows_in_chunk >= rotate_rows
}

/// The cursor once one more row has been written.
pub open spec fn advanced(c: ChunkCursor, rotate_rows: usize) -> ChunkCursor {
    if is_full(c, rotate_rows) {
        ChunkCursor { chunk_no: (c.chunk_no + 1) as usize, rows_in_chunk: 1, continuing: false }
    } else {
        ChunkCursor { rows_in_chunk: (c.rows_in_chunk + 1) as usize, ..c }
    }
}

/// One more row can be counted: there is a number for the chunk that it opens,
/// or room in the count of the rows of its chunk.
pub open spec fn takes_row(c: ChunkCursor, rotate_rows: usize) -> bool {
    if is_full(c, rotate_rows) {
        c.chunk_no < usize::MAX
    } else {
        c.rows_in_chunk < usize::MAX
    }
}

impl ChunkCursor {
    /// Takes one row; tells whether it opens a new chunk.
    pub fn take_row(&mut self, rotate_rows: usize) -> (opens: bool)
        requires
            takes_row(*old(self), rotate_rows),
        ensures
            opens == is_full(*old(self), rotate_rows),
            *final(self) == advanced(*old(self), rotate_rows),
    {
        let opens = rotate_rows > 0 && self.rows_in_chunk >= rotate_rows;
        if opens {
            self.chunk_no = self.chunk_no + 1;
            self.rows_in_chunk = 0;
            self.continuing = false;
        }
        self.rows_in_chunk = self.rows_in_chunk + 1;
        opens
    }
}

/// The cursor once `count` rows have been written.
pub open spec fn after_rows(c: ChunkCursor, rotate_rows: usize, count: nat) -> ChunkCursor
    decreases count,
{
    if count == 0 {
        c
    } else {
        advanced(after_rows(c, rotate_rows, (count - 1) as nat), rotate_rows)
    }
}

/// `count` rows can be counted, one after the other.
pub open spec fn has_room(c: ChunkCursor, rotate_rows: usize, count: nat) -> bool
    decreases count,
{
    count == 0 || has_room(c, rotate_rows, (count - 1) as nat) && takes_row(
        after_rows(c, rotate_rows, (count - 1) as nat),
        rotate_rows,
    )
}

/// Where there is room for some rows, there is room for fewer.
pub proof fn lemma_room_for_fewer(c: ChunkCursor, rotate_rows: usize, count: nat, fewer: nat)
    requires
        has_room(c, rotate_rows, count),
        fewer <= count,
    ensures
        has_room(c, rotate_rows, fewer),
    decreases count,
{
    if fewer < count {
        lemma_room_for_fewer(c, rotate_rows, (count - 1) as nat, fewer);
    }
}

/// Whether `count` rows can be counted from a cursor on.
pub fn room_for(cursor: ChunkCursor, rotate_rows: usize, count: usize) -> (r: bool)
    ensures
        r == has_room(cursor, rotate_rows, count as nat),
{
    let mut c = cursor;
    for i in 0..count
        invariant
            c == after_rows(cursor, rotate_rows, i as nat),
            has_room(cursor, rotate_rows, i as nat),
    {
        let full = rotate_rows > 0 && c.rows_in_chunk >= rotate_rows;
        let last = if full {
            c.chunk_no
        } else {
            c.rows_in_chunk
        };
        if last == usize::MAX {
            proof {
                if has_room(cursor, rotate_rows, count as nat) {
                    lemma_room_for_fewer(cursor, rotate_rows, count as nat, (i + 1) as nat);
                }
            }
            return false;
        }
        c.take_row(rotate_rows);
    }
    true
}

/// With rotation there is room for rows just where there is a number for the
/// last chunk that they open.
pub proof fn law_room_for_the_last_chunk(c: ChunkCursor, rotate_rows: usize, count: nat)
    requires
        rotate_rows > 0,
        count > 0,
        c.rows_in_chunk <= rotate_rows,
    ensures
        has_room(c, rotate_rows, count) <==> c.chunk_no + (c.rows_in_chunk + count - 1) / (
        rotate_rows as int) <= usize::MAX,
    decreases count,
{
    let size = rotate_rows as int;
    let row = c.rows_in_chunk + count - 1;
    if count == 1 {
        assert(has_room(c, rotate_rows, 0));
        assert(after_rows(c, rotate_rows, 0) == c);
        if row == size {
            assert(row / size == 1) by (nonlinear_arith)
                requires
                    row == size,
                    size > 0,
            ;
        } else {
            assert(row / size == 0) by (nonlinear_arith)
                requires
                    0 <= row < size,
            ;
        }
    } else {
        law_room_for_the_last_chunk(c, rotate_rows, (count - 1) as nat);
        assert((row - 1) / size <= row / size) by (nonlinear_arith)
            requires
                size > 0,
        ;
        if has_room(c, rotate_rows, (count - 1) as nat) {
            law_rows_fill_chunks(c, rotate_rows, (count - 1) as nat);
            if (row - 1) % size + 1 == size {
                assert(row / size == (row - 1) / size + 1) by (nonlinear_arith)
                    requires
                        (row - 1) % size + 1 == size,
                        size > 0,
                ;
            } else {
                assert(row / size == (row - 1) / size) by (nonlinear_arith)
                    requires
                        (row - 1) % size + 1 < size,
                        size > 0,
                ;
            }
        }
    }
}

/// Rows fill the chunks in order and each chunk to its limit: row `count`,
/// counted from 1, goes to the chunk that lies as many whole chunks behind the
/// first one as the rows before it fill, and no chunk exceeds the limit.
pub proof fn law_rows_fill_chunks(c: ChunkCursor, rotate_rows: usize, count: nat)
    requires
        rotate_rows > 0,
        count > 0,
        c.rows_in_chunk <= rotate_rows,
        c.chunk_no + (c.rows_in_chunk + count - 1) / (rotate_rows as int) <= usize::MAX,
    ensures
        ({
            let end = after_rows(c, rotate_rows, count);
            let row = c.rows_in_chunk + count - 1;
            &&& end.chunk_no == c.chunk_no + row / (rotate_rows as int)
            &&& end.rows_in_chunk == row % (rotate_rows as int) + 1
            &&& end.rows_in_chunk <= rotate_rows
        }),
    decreases count,
{
    let size = rotate_rows as int;
    let row = c.rows_in_chunk + count - 1;
    let previous = after_rows(c, rotate_rows, (count - 1) as nat);
    if count == 1 {
        assert(previous == c);
        if row == size {
            assert(row / size == 1 && row % size == 0) by (nonlinear_arith)
                requires
                    row == size,
                    size > 0,
            ;
        } else {
            assert(row / size == 0 && row % size == row) by (nonlinear_arith)
                requires
                    0 <= row < size,
            ;
        }
    } else {
        assert((row - 1) / size <= row / size) by (nonlinear_arith)
            requires
                size > 0,
        ;
        law_rows_fill_chunks(c, rotate_rows, (count - 1) as nat);
        if (row - 1) % size + 1 == size {
            assert(row / size == (row - 1) / size + 1 && row % size == 0) by (nonlinear_arith)
                requires
                    (row - 1) % size + 1 == size,
                    size > 0,
            ;
        } else {
            assert(row / size == (row - 1) / size && row % size == (row - 1) % size + 1)
                by (nonlinear_arith)
                requires
                    (row - 1) % size + 1 < size,
                    size > 0,
            ;
        }
    }
}

/// Without rotation every row goes to the one output file.
pub proof fn law_no_rotation_one_file(c: ChunkCursor, count: nat)
    requires
        c.rows_in_chunk + count <= usize::MAX,
    ensures
        after_rows(c, 0, count).chunk_no == c.chunk_no,
        after_rows(c, 0, count).rows_in_chunk == c.rows_in_chunk + count,
    decreases count,
{
    if count > 0 {
        law_no_rotation_one_file(c, (count - 1) as nat);
    }
}

/// Chunks are numbered with three digits up to 999: the stem of the output, an
/// underscore, the digits and `.csv`.
pub proof fn law_chunk_name_has_three_digits(stem: Seq<char>, a: nat, b: nat, c: nat)
    requires
        a < 10,
        b < 10,
        c < 10,
    ensures
        ({
            let name = chunk_name(stem, 100 * a + 10 * b + c);
            let n = stem.len() as int;
            &&& name.len() == n + 8
            &&& name.take(n) == stem
            &&& name[n] == '_'
            &&& name[n + 1] as int == '0' as int + a
            &&& name[n + 2] as int == '0' as int + b
            &&& name[n + 3] as int == '0' as int + c
            &&& name.skip(n + 4) == ".csv"@
        }),
{
    let k = 100 * a + 10 * b + c;
    reveal_strlit("_");
    reveal_strlit(".csv");
    crate::number::law_digits_count_tens_and_ones(10 * a + b, c);
    crate::number::law_digits_count_tens_and_ones(a, b);
    crate::number::law_digits_count_tens_and_ones(0, a);
    let d = crate::number::digits(k);
    let filled = crate::number::zero_filled(d, 3);
    reveal_with_fuel(crate::number::zero_filled, 4);
    assert(k == 10 * (10 * a + b) + c);
    if a > 0 {
        assert(filled == d);
    } else if b > 0 {
        assert(filled == seq!['0'] + d);
    } else {
        assert(filled == seq!['0'] + (seq!['0'] + d));
    }
    let name = chunk_name(stem, k);
    let n = stem.len() as int;
    assert(name.take(n) =~= stem);
    assert(name.skip(n + 4) =~= ".csv"@);
}

/// Among the names of a directory the chunk files are found by their numbers, and
/// they come in the order of these, so the last one has the highest number. A name
/// that is none of a chunk is not among them.
pub proof fn law_chunks_are_found_in_order(
    names: Seq<Seq<char>>,
    stem: Seq<char>,
    list: Seq<(usize, usize)>,
    p: usize,
    n: usize,
)
    requires
        is_chunk_list(names, stem, list),
        p < names.len(),
    ensures
        names[p as int] == chunk_name(stem, n as nat) ==> list.contains((n, p)) && list.last().0
            >= n,
        !crate::text::starts_with(names[p as int], stem + seq!['_']) ==> !list.contains((n, p)),
        forall|i: int, j: int|
            0 <= i < j < list.len() ==> (#[trigger] list[i]).0 <= (#[trigger] list[j]).0,
{
    reveal_strlit("_");
    assert("_"@ =~= seq!['_']);
    assert forall|i: int, j: int| 0 <= i < j < list.len() implies (#[trigger] list[i]).0 <= (
    #[trigger] list[j]).0 by {
        assert(chunk_before(list[i], list[j]));
    }
    if names[p as int] == chunk_name(stem, n as nat) {
        law_chunk_name_tells_its_number(stem, n as nat);
        assert(list.contains((n, p)));
        let i = choose|i: int| 0 <= i < list.len() && list[i] == (n, p);
        if i < list.len() - 1 {
            assert(list[i].0 <= list[list.len() - 1].0);
        }
    }
}

/// A run that does not append begins with the first chunk, afresh. One that is
/// resumed never goes back behind the last chunk: it goes on in that one exactly
/// where it has room, counting the rows that are there, and opens the next one
/// otherwise.
pub proof fn law_resumed_run_goes_on_at_the_end(
    rotate_rows: usize,
    last_chunk: usize,
    last_chunk_rows: usize,
)
    requires
        last_chunk < usize::MAX,
        rotate_rows > 0,
    ensures
        ({
            let c = first_cursor(rotate_rows, true, last_chunk, last_chunk_rows);
            &&& c.continuing <==> last_chunk > 0 && last_chunk_rows < rotate_rows
            &&& c.continuing ==> c.chunk_no == last_chunk && c.rows_in_chunk == last_chunk_rows
            &&& !c.continuing ==> c.chunk_no == last_chunk + 1 && c.rows_in_chunk == 0
        }),
        ({
            let c = first_cursor(rotate_rows, false, last_chunk, last_chunk_rows);
            c.chunk_no == 1 && c.rows_in_chunk == 0 && !c.continuing
        }),
        first_cursor(0, true, last_chunk, last_chunk_rows) == first_cursor(
            rotate_rows,
            false,
            last_chunk,
            last_chunk_rows,
        ),
{
}

/// The stem of the chunks is that of the output file, whatever directory it lies
/// in and whatever its extension.
pub proof fn law_chunks_are_named_after_the_output(
    directory: Seq<char>,
    stem: Seq<char>,
    ext: Seq<char>,
)
    requires
        directory.len() > 0 ==> directory.last() == '/',
        stem.len() > 0 && stem != seq!['.'] && !stem.contains('/'),
        !ext.contains('/') && !ext.contains('.'),
    ensures
        stem_text(directory + (stem + seq!['.'] + ext)) == stem,
{
    crate::path::law_name_is_stem_and_extension(directory, stem, ext);
}

/// A run appends only where it was asked to resume and there is something of its
/// own kind to go on with: chunks with rotation, the output file without.
pub proof fn law_only_a_resumed_run_appends(
    resume: bool,
    rotate_rows: usize,
    has_chunks: bool,
    out_exists: bool,
)
    ensures
        goes_on(resume, rotate_rows, has_chunks, out_exists) ==> resume,
        resume && rotate_rows > 0 ==> goes_on(resume, rotate_rows, has_chunks, out_exists)
            == has_chunks,
        resume && rotate_rows == 0 ==> goes_on(resume, rotate_rows, has_chunks, out_exists)
            == out_exists,
{
}

/// Only a name made of the stem, an underscore, three or more digits and `.csv` is
/// that of a chunk, and the digits write its number.
pub proof fn law_chunk_number_is_in_the_name(name: Seq<char>, stem: Seq<char>, n: nat)
    requires
        number_of_chunk(name, stem) == Some(n),
    ensures
        exists|d: Seq<char>|
            #![trigger crate::number::value(d)]
            d.len() >= 3 && (forall|i: int| 0 <= i < d.len() ==> '0' <= #[trigger] d[i] <= '9')
                && crate::number::value(d) == n && name == stem + seq!['_'] + d + seq![
                '.',
                'c',
                's',
                'v',
            ],
{
    reveal_strlit("_");
    reveal_strlit(".csv");
    let prefix = stem + "_"@;
    let rest = name.skip(prefix.len() as int);
    let d = rest.take(rest.len() - 4);
    assert(prefix =~= stem + seq!['_']);
    assert(".csv"@ =~= seq!['.', 'c', 's', 'v']);
    assert(rest =~= d + rest.skip(rest.len() - 4));
    assert(name =~= name.take(prefix.len() as int) + rest);
    assert(name =~= stem + seq!['_'] + d + seq!['.', 'c', 's', 'v']);
    assert(crate::number::is_digit(d[0]));
    assert(crate::number::without_plus(d) == d);
    assert forall|i: int| 0 <= i < d.len() implies '0' <= #[trigger] d[i] <= '9' by {
        assert(crate::number::is_digit(d[i]));
    }
    assert(crate::number::value(d) == n);
}

} // verus!
