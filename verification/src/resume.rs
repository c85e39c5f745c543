//! Resuming an interrupted run: what was indexed already, and what remains.

use crate::csv_text::read_rows;
use vstd::hash_set::StringHashSet;
use vstd::prelude::*;

verus! {

/// The files that rows tell of: their first fields.
pub open spec fn files_of(rows: Seq<Seq<Seq<char>>>) -> Seq<Seq<char>>
    decreases rows.len(),
{
    if rows.len() == 0 {
        seq![]
    } else if rows.last().len() > 0 {
        files_of(rows.drop_last()).push(rows.last()[0])
    } else {
        files_of(rows.drop_last())
    }
}

/// The files that these rows tell of.
pub fn files_in(rows: &Vec<Vec<String>>) -> (files: Vec<String>)
    ensures
        crate::text::views(files@) == files_of(crate::csv_text::rows_view(rows@)),
{
    let mut files: Vec<String> = Vec::new();
    let ghost all = crate::csv_text::rows_view(rows@);
    proof {
        assert(crate::text::views(files@) == Seq::<Seq<char>>::empty());
    }
    for i in 0..rows.len()
        invariant
            all == crate::csv_text::rows_view(rows@),
            crate::text::views(files@) == files_of(all.take(i as int)),
    {
        let ghost before = crate::text::views(files@);
        proof {
            assert(all.take(i + 1).drop_last() == all.take(i as int));
            assert(all.take(i + 1).last() == crate::text::views(rows@[i as int]@));
        }
        if rows[i].len() > 0 {
            files.push(rows[i][0].clone());
            proof {
                assert(crate::text::views(files@) == before.push(rows@[i as int]@[0]@));
            }
        }
    }
    proof {
        assert(all.take(rows@.len() as int) == all);
    }
    files
}

/// What the content of an index file tells: the files indexed in it, and how
/// many rows it has. A table of this tool gives back the first fields of its
/// rows.
pub fn indexed_files(content: &[u8]) -> (r: (Vec<String>, usize))
    ensures
        crate::text::views(r.0@) == files_of(crate::csv_text::csv_rows(content@)),
        r.1 == crate::csv_text::csv_rows(content@).len(),
        forall|table: Seq<Seq<Seq<char>>>| #[trigger]
            crate::csv_text::csv_text(table) == content@ && crate::csv_text::is_table(table)
                ==> crate::text::views(r.0@) == files_of(table.skip(1)) && r.1 == table.len() - 1,
{
    let rows = read_rows(content);
    (files_in(&rows), rows.len())
}

/// The files indexed in these contents of index files; one that could not be
/// read tells of none.
pub open spec fn done_in(contents: Seq<Option<Vec<u8>>>) -> Seq<Seq<char>>
    decreases contents.len(),
{
    if contents.len() == 0 {
        seq![]
    } else {
        done_in(contents.drop_last()) + match contents.last() {
            Some(content) => files_of(crate::csv_text::csv_rows(content@)),
            None => seq![],
        }
    }
}

/// How many rows the last of these contents has, where it could be read.
pub open spec fn rows_in_last(contents: Seq<Option<Vec<u8>>>) -> nat {
    if contents.len() == 0 {
        0
    } else {
        match contents.last() {
            Some(content) => crate::csv_text::csv_rows(content@).len(),
            None => 0,
        }
    }
}

/// The rows of the chunk that a run may go on with; without rotation there is none.
pub open spec fn rows_to_resume(contents: Seq<Option<Vec<u8>>>, rotate: bool) -> nat {
    if rotate {
        rows_in_last(contents)
    } else {
        0
    }
}

/// Some index file could not be read.
pub open spec fn one_is_unreadable(contents: Seq<Option<Vec<u8>>>) -> bool {
    exists|i: int| 0 <= i < contents.len() && #[trigger] contents[i] is None
}

/// What the contents of the index files of an earlier run tell, in the order of
/// the files: the files that are done; where the index is spread over chunks,
/// how many rows the last one has; and whether a file could not be read.
pub fn resumed(contents: &Vec<Option<Vec<u8>>>, rotate: bool) -> (r: (Vec<String>, usize, bool))
    ensures
        crate::text::views(r.0@) == done_in(contents@),
        r.1 == if rotate {
            rows_in_last(contents@)
        } else {
            0
        },
        r.2 == exists|i: int| 0 <= i < contents@.len() && #[trigger] contents@[i] is None,
        r.1 == rows_to_resume(contents@, rotate),
        r.2 == one_is_unreadable(contents@),
{
    let mut done: Vec<String> = Vec::new();
    let mut last_rows: usize = 0;
    let mut unreadable = false;
    proof {
        assert(crate::text::views(done@) == Seq::<Seq<char>>::empty());
    }
    for i in 0..contents.len()
        invariant
            crate::text::views(done@) == done_in(contents@.take(i as int)),
            last_rows == rows_in_last(contents@.take(i as int)),
            unreadable == exists|k: int| 0 <= k < i && #[trigger] contents@[k] is None,
    {
        let ghost before = crate::text::views(done@);
        proof {
            assert(contents@.take(i + 1).drop_last() == contents@.take(i as int));
            assert(contents@.take(i + 1).last() == contents@[i as int]);
        }
        match &contents[i] {
            Some(content) => {
                let (mut names, rows) = indexed_files(content);
                let ghost more = crate::text::views(names@);
                done.append(&mut names);
                last_rows = rows;
                proof {
                    assert(crate::text::views(done@) == before + more);
                }
            },
            None => {
                last_rows = 0;
                unreadable = true;
                proof {
                    assert(before == before + Seq::<Seq<char>>::empty());
                    assert(contents@[i as int] is None);
                }
            },
        }
    }
    proof {
        assert(contents@.take(contents@.len() as int) == contents@);
    }
    (
        done,
        if rotate {
            last_rows
        } else {
            0
        },
        unreadable,
    )
}

/// The positions of the files that are not done, in order.
pub open spec fn left_over(files: Seq<Seq<char>>, done: Seq<Seq<char>>) -> Seq<int>
    decreases files.len(),
{
    if files.len() == 0 {
        seq![]
    } else if done.contains(files.last()) {
        left_over(files.drop_last(), done)
    } else {
        left_over(files.drop_last(), done).push(files.len() - 1)
    }
}

/// The positions of the files that are not done yet, in order.
pub fn remaining_files(files: &Vec<String>, done: &Vec<String>) -> (left: Vec<usize>)
    ensures
        left@.map_values(|i: usize| i as int) == left_over(
            crate::text::views(files@),
            crate::text::views(done@),
        ),
{
    let mut set = StringHashSet::new();
    let ghost finished = crate::text::views(done@);
    for i in 0..done.len()
        invariant
            finished == crate::text::views(done@),
            forall|s: Seq<char>| #[trigger]
                set@.contains(s) <==> exists|k: int| 0 <= k < i && #[trigger] finished[k] == s,
    {
        proof {
            assert(finished[i as int] == done@[i as int]@);
        }
        set.insert(done[i].clone());
    }
    let mut left: Vec<usize> = Vec::new();
    let ghost all = crate::text::views(files@);
    proof {
        assert(left@.map_values(|i: usize| i as int) == Seq::<int>::empty());
    }
    for i in 0..files.len()
        invariant
            all == crate::text::views(files@),
            finished == crate::text::views(done@),
            forall|s: Seq<char>| #[trigger]
                set@.contains(s) <==> exists|k: int|
                    0 <= k < finished.len() && #[trigger] finished[k] == s,
            left@.map_values(|i: usize| i as int) == left_over(all.take(i as int), finished),
    {
        let ghost before = left@.map_values(|i: usize| i as int);
        proof {
            assert(all.take(i + 1).drop_last() == all.take(i as int));
            assert(all.take(i + 1).last() == files@[i as int]@);
            assert(set@.contains(files@[i as int]@) <==> finished.contains(files@[i as int]@));
        }
        if !set.contains(&files[i]) {
            left.push(i);
            proof {
                assert(left@.map_values(|i: usize| i as int) == before.push(i as int));
            }
        }
    }
    proof {
        assert(all.take(files@.len() as int) == all);
    }
    left
}

/// What remains are exactly the files that no earlier row tells of: a file is
/// neither indexed twice nor left out.
pub proof fn law_resume_indexes_the_rest(files: Seq<Seq<char>>, done: Seq<Seq<char>>, i: int)
    ensures
        left_over(files, done).contains(i) <==> 0 <= i < files.len() && !done.contains(files[i]),
    decreases files.len(),
{
    if files.len() > 0 {
        let shorter = files.drop_last();
        let n = files.len() - 1;
        law_resume_indexes_the_rest(shorter, done, i);
        let before = left_over(shorter, done);
        if !done.contains(files.last()) {
            let all = before.push(n);
            if before.contains(i) {
                let k = choose|k: int| 0 <= k < before.len() && before[k] == i;
                assert(all[k] == i);
            }
            if all.contains(i) && i != n {
                let k = choose|k: int| 0 <= k < all.len() && all[k] == i;
                assert(before[k] == i);
            }
            assert(all[before.len() as int] == n);
        }
    }
}

/// Every row of a table tells of its file, so a run that is resumed leaves the
/// files of all rows alone.
pub proof fn law_indexed_files_are_done(rows: Seq<Seq<Seq<char>>>, i: int)
    requires
        0 <= i < rows.len(),
        rows[i].len() > 0,
    ensures
        files_of(rows).contains(rows[i][0]),
    decreases rows.len(),
{
    let before = files_of(rows.drop_last());
    if i < rows.len() - 1 {
        law_indexed_files_are_done(rows.drop_last(), i);
        let k = choose|k: int| 0 <= k < before.len() && before[k] == rows[i][0];
        if rows.last().len() > 0 {
            assert(files_of(rows)[k] == rows[i][0]);
        }
    } else {
        assert(files_of(rows)[before.len() as int] == rows[i][0]);
    }
}

/// The files of every index file that could be read are done.
pub proof fn law_every_chunk_counts(contents: Seq<Option<Vec<u8>>>, i: int, file: Seq<char>)
    requires
        0 <= i < contents.len(),
        contents[i] is Some,
        files_of(crate::csv_text::csv_rows(contents[i]->Some_0@)).contains(file),
    ensures
        done_in(contents).contains(file),
    decreases contents.len(),
{
    let before = done_in(contents.drop_last());
    let all = done_in(contents);
    if i < contents.len() - 1 {
        law_every_chunk_counts(contents.drop_last(), i, file);
        let k = choose|k: int| 0 <= k < before.len() && before[k] == file;
        assert(all[k] == file);
    } else {
        let last = files_of(crate::csv_text::csv_rows(contents[i]->Some_0@));
        let k = choose|k: int| 0 <= k < last.len() && last[k] == file;
        assert(all[before.len() + k] == file);
    }
}

/// Nothing counts as done that no row tells of.
pub proof fn law_done_files_have_a_row(contents: Seq<Option<Vec<u8>>>, file: Seq<char>)
    requires
        done_in(contents).contains(file),
    ensures
        exists|i: int, k: int|
            0 <= i < contents.len() && contents[i] is Some && 0 <= k < crate::csv_text::csv_rows(
                contents[i]->Some_0@,
            ).len() && (#[trigger] crate::csv_text::csv_rows(contents[i]->Some_0@)[k]).len() > 0
                && crate::csv_text::csv_rows(contents[i]->Some_0@)[k][0] == file,
    decreases contents.len(),
{
    let fewer = contents.drop_last();
    let before = done_in(fewer);
    let all = done_in(contents);
    let n = choose|n: int| 0 <= n < all.len() && all[n] == file;
    if n < before.len() {
        assert(before[n] == file);
        law_done_files_have_a_row(fewer, file);
        let (i, k) = choose|i: int, k: int|
            0 <= i < fewer.len() && fewer[i] is Some && 0 <= k < crate::csv_text::csv_rows(
                fewer[i]->Some_0@,
            ).len() && (#[trigger] crate::csv_text::csv_rows(fewer[i]->Some_0@)[k]).len() > 0
                && crate::csv_text::csv_rows(fewer[i]->Some_0@)[k][0] == file;
        assert(contents[i] == fewer[i]);
        assert(crate::csv_text::csv_rows(contents[i]->Some_0@)[k][0] == file);
    } else {
        let i = contents.len() - 1;
        assert(contents.last() == contents[i]);
        let rows = crate::csv_text::csv_rows(contents[i]->Some_0@);
        assert(files_of(rows)[n - before.len()] == file);
        let k = lemma_file_has_row(rows, n - before.len());
        assert(crate::csv_text::csv_rows(contents[i]->Some_0@)[k][0] == file);
    }
}

proof fn lemma_file_has_row(rows: Seq<Seq<Seq<char>>>, n: int) -> (k: int)
    requires
        0 <= n < files_of(rows).len(),
    ensures
        0 <= k < rows.len(),
        rows[k].len() > 0,
        rows[k][0] == files_of(rows)[n],
    decreases rows.len(),
{
    let before = files_of(rows.drop_last());
    if n < before.len() {
        lemma_file_has_row(rows.drop_last(), n)
    } else {
        rows.len() - 1
    }
}

/// What remains keeps its order, and nothing remains twice.
pub proof fn law_rest_is_in_order(files: Seq<Seq<char>>, done: Seq<Seq<char>>)
    ensures
        forall|a: int, b: int|
            0 <= a < b < left_over(files, done).len() ==> #[trigger] left_over(files, done)[a]
                < #[trigger] left_over(files, done)[b],
        forall|a: int|
            0 <= a < left_over(files, done).len() ==> 0 <= #[trigger] left_over(files, done)[a]
                < files.len(),
    decreases files.len(),
{
    if files.len() > 0 {
        let fewer = files.drop_last();
        law_rest_is_in_order(fewer, done);
        let before = left_over(fewer, done);
        let all = left_over(files, done);
        assert forall|a: int, b: int| 0 <= a < b < all.len() implies #[trigger] all[a]
            < #[trigger] all[b] by {
            assert(all[a] == before[a]);
            if b < before.len() {
                assert(all[b] == before[b]);
            }
        }
        assert forall|a: int| 0 <= a < all.len() implies 0 <= #[trigger] all[a] < files.len() by {
            if a < before.len() {
                assert(all[a] == before[a]);
            }
        }
    }
}

/// The rows of the last index file count, as many as it has; one that could not be
/// read has none.
pub proof fn law_last_file_gives_the_rows(contents: Seq<Option<Vec<u8>>>, content: Vec<u8>)
    ensures
        rows_to_resume(contents.push(Some(content)), true) == crate::csv_text::csv_rows(
            content@,
        ).len(),
        rows_to_resume(contents.push(None), true) == 0,
        rows_to_resume(seq![], true) == 0,
        rows_to_resume(contents, false) == 0,
{
}

/// It is told where an index file could not be read, whichever it is.
pub proof fn law_unreadable_files_are_told(
    a: Seq<Option<Vec<u8>>>,
    b: Seq<Option<Vec<u8>>>,
    content: Vec<u8>,
)
    ensures
        one_is_unreadable(a + seq![None] + b),
        one_is_unreadable(a + seq![Some(content)] + b) <==> one_is_unreadable(a)
            || one_is_unreadable(b),
        !one_is_unreadable(seq![]),
{
    let n = a.len() as int;
    let bad = a + seq![None] + b;
    assert(bad[n] is None);
    let good = a + seq![Some(content)] + b;
    if one_is_unreadable(a) {
        let i = choose|i: int| 0 <= i < a.len() && #[trigger] a[i] is None;
        assert(good[i] is None);
    }
    if one_is_unreadable(b) {
        let i = choose|i: int| 0 <= i < b.len() && #[trigger] b[i] is None;
        assert(good[n + 1 + i] is None);
    }
    if one_is_unreadable(good) {
        let i = choose|i: int| 0 <= i < good.len() && #[trigger] good[i] is None;
        if i < n {
            assert(a[i] is None);
        } else if i > n {
            assert(b[i - n - 1] is None);
        }
    }
}

} // verus!
