//! The files of the index: which rows go to which file, and what each file
//! holds.

use crate::chunks::ChunkCursor;
use crate::rows::{opening_text, row_text, RowRecord};
use vstd::prelude::*;

verus! {

/// What is written to one file: a number that names the file where the index is
/// kept in chunks, whether the file is there already and appended to, and the
/// bytes.
pub struct OutputFile {
    pub chunk_no: usize,
    pub append: bool,
    pub content: Vec<u8>,
}

/// The rows that go to one file, and whether the file begins with them.
#[verifier::ext_equal]
pub struct Placement {
    pub chunk_no: nat,
    pub fresh: bool,
    pub rows: Seq<Seq<Seq<char>>>,
}

/// The files that rows go to, beginning at the cursor `c`. The first file is
/// opened even where there are no rows.
pub open spec fn placed(
    rows: Seq<Seq<Seq<char>>>,
    c: ChunkCursor,
    append: bool,
    rotate_rows: usize,
) -> Seq<Placement>
    decreases rows.len(),
{
    if rows.len() == 0 {
        seq![Placement { chunk_no: c.chunk_no as nat, fresh: !append, rows: seq![] }]
    } else {
        let files = placed(rows.drop_last(), c, append, rotate_rows);
        let cursor = crate::chunks::after_rows(c, rotate_rows, (rows.len() - 1) as nat);
        if crate::chunks::is_full(cursor, rotate_rows) {
            files.push(
                Placement {
                    chunk_no: cursor.chunk_no as nat + 1,
                    fresh: true,
                    rows: seq![rows.last()],
                },
            )
        } else {
            let last = files.last();
            files.drop_last().push(Placement { rows: last.rows.push(rows.last()), ..last })
        }
    }
}

/// The bytes of the rows of one file: where the file begins with them, the
/// titles of the columns come first.
pub open spec fn placement_text(p: Placement) -> Seq<u8> {
    if p.fresh {
        crate::csv_text::csv_line(crate::rows::header()) + crate::csv_text::csv_text(p.rows)
    } else {
        crate::csv_text::csv_text(p.rows)
    }
}

/// The rows of records with the texts of their duplicate groups.
pub open spec fn all_rows(records: Seq<RowRecord>, groups: Seq<String>) -> Seq<Seq<Seq<char>>> {
    Seq::new(records.len(), |i: int| crate::rows::fields_of(records[i], groups[i]@))
}

/// The first file is appended to: with rotation where a chunk is continued,
/// without it where the run appends.
pub open spec fn first_appends(c: ChunkCursor, append: bool, rotate_rows: usize) -> bool {
    if rotate_rows > 0 {
        c.continuing
    } else {
        append
    }
}

/// The file holds what is placed in it.
pub open spec fn holds(file: OutputFile, p: Placement) -> bool {
    file.chunk_no == p.chunk_no && file.append == !p.fresh && file.content@ == placement_text(p)
}

proof fn lemma_last_placement(
    rows: Seq<Seq<Seq<char>>>,
    c: ChunkCursor,
    append: bool,
    rotate_rows: usize,
)
    requires
        crate::chunks::has_room(c, rotate_rows, rows.len()),
    ensures
        placed(rows, c, append, rotate_rows).len() > 0,
        placed(rows, c, append, rotate_rows).last().chunk_no == crate::chunks::after_rows(
            c,
            rotate_rows,
            rows.len(),
        ).chunk_no,
    decreases rows.len(),
{
    if rows.len() > 0 {
        lemma_last_placement(rows.drop_last(), c, append, rotate_rows);
    }
}

/// What is written for these records, file by file, beginning at the cursor.
pub fn index_files(
    records: &Vec<RowRecord>,
    groups: &Vec<String>,
    cursor: ChunkCursor,
    append: bool,
    rotate_rows: usize,
) -> (files: Vec<OutputFile>)
    requires
        records@.len() == groups@.len(),
        crate::chunks::has_room(cursor, rotate_rows, records@.len()),
    ensures
        ({
            let placements = placed(
                all_rows(records@, groups@),
                cursor,
                first_appends(cursor, append, rotate_rows),
                rotate_rows,
            );
            &&& files@.len() == placements.len()
            &&& forall|i: int| 0 <= i < files@.len() ==> holds(#[trigger] files@[i], placements[i])
        }),
{
    let first_append = if rotate_rows > 0 {
        cursor.continuing
    } else {
        append
    };
    let ghost rows = all_rows(records@, groups@);
    let mut files: Vec<OutputFile> = Vec::new();
    let mut current = OutputFile {
        chunk_no: cursor.chunk_no,
        append: first_append,
        content: opening_text(first_append),
    };
    let mut c = cursor;
    proof {
        let p = placed(rows.take(0), cursor, first_append, rotate_rows);
        assert(rows.take(0).len() == 0);
        assert(placement_text(p.last()) == current.content@);
    }
    for i in 0..records.len()
        invariant
            records@.len() == groups@.len(),
            crate::chunks::has_room(cursor, rotate_rows, records@.len()),
            rows == all_rows(records@, groups@),
            c == crate::chunks::after_rows(cursor, rotate_rows, i as nat),
            ({
                let placements = placed(
                    rows.take(i as int),
                    cursor,
                    first_append,
                    rotate_rows,
                );
                &&& files@.len() + 1 == placements.len()
                &&& forall|k: int|
                    0 <= k < files@.len() ==> holds(#[trigger] files@[k], placements[k])
                &&& holds(current, placements.last())
            }),
    {
        let ghost now = rows.take(i + 1);
        let ghost before = placed(rows.take(i as int), cursor, first_append, rotate_rows);
        let ghost done = files@;
        let ghost held = current;
        let ghost row = crate::rows::fields_of(records@[i as int], groups@[i as int]@);
        proof {
            assert(now.drop_last() == rows.take(i as int));
            assert(now.last() == row);
            crate::chunks::lemma_room_for_fewer(
                cursor,
                rotate_rows,
                records@.len(),
                (i + 1) as nat,
            );
            lemma_last_placement(rows.take(i as int), cursor, first_append, rotate_rows);
        }
        let mut line = row_text(&records[i], &groups[i]);
        if c.take_row(rotate_rows) {
            let mut content = opening_text(false);
            content.append(&mut line);
            files.push(current);
            current = OutputFile { chunk_no: c.chunk_no, append: false, content };
            proof {
                assert(seq![row].drop_last() == Seq::<Seq<Seq<char>>>::empty());
                assert(crate::csv_text::csv_text(seq![row].drop_last()) == Seq::<u8>::empty());
                assert(crate::csv_text::csv_text(seq![row]) == crate::csv_text::csv_line(row));
                let after = placed(now, cursor, first_append, rotate_rows);
                assert forall|k: int| 0 <= k < files@.len() implies holds(
                    #[trigger] files@[k],
                    after[k],
                ) by {
                    if k < done.len() {
                        assert(files@[k] == done[k]);
                        assert(after[k] == before[k]);
                    } else {
                        assert(files@[k] == held);
                        assert(after[k] == before.last());
                    }
                }
            }
        } else {
            current.content.append(&mut line);
            proof {
                let p = before.last();
                let grown = p.rows.push(row);
                assert(grown.drop_last() == p.rows);
                assert(crate::csv_text::csv_text(grown) == crate::csv_text::csv_text(p.rows)
                    + crate::csv_text::csv_line(row));
                let after = placed(now, cursor, first_append, rotate_rows);
                assert(after.last() == (Placement { rows: grown, ..p }));
                assert(placement_text(after.last()) == placement_text(p)
                    + crate::csv_text::csv_line(row));
                assert forall|k: int| 0 <= k < files@.len() implies holds(
                    #[trigger] files@[k],
                    after[k],
                ) by {
                    assert(files@[k] == done[k]);
                    assert(after[k] == before[k]);
                }
            }
        }
    }
    proof {
        assert(rows.take(records@.len() as int) == rows);
    }
    files.push(current);
    files
}

/// The rows of files, file after file.
pub open spec fn rows_of(files: Seq<Placement>) -> Seq<Seq<Seq<char>>>
    decreases files.len(),
{
    if files.len() == 0 {
        seq![]
    } else {
        rows_of(files.drop_last()) + files.last().rows
    }
}

/// Every row is written once, and the rows keep their order over the files.
pub proof fn law_every_row_is_written_once(
    rows: Seq<Seq<Seq<char>>>,
    c: ChunkCursor,
    append: bool,
    rotate_rows: usize,
)
    ensures
        placed(rows, c, append, rotate_rows).len() > 0,
        rows_of(placed(rows, c, append, rotate_rows)) == rows,
    decreases rows.len(),
{
    let files = placed(rows, c, append, rotate_rows);
    if rows.len() == 0 {
        assert(files.drop_last() == Seq::<Placement>::empty());
        assert(rows_of(files.drop_last()) == Seq::<Seq<Seq<char>>>::empty());
        assert(rows_of(files) == rows);
    } else {
        let before = placed(rows.drop_last(), c, append, rotate_rows);
        law_every_row_is_written_once(rows.drop_last(), c, append, rotate_rows);
        let cursor = crate::chunks::after_rows(c, rotate_rows, (rows.len() - 1) as nat);
        assert(rows == rows.drop_last().push(rows.last()));
        if crate::chunks::is_full(cursor, rotate_rows) {
            assert(files.drop_last() == before);
            assert(rows_of(files) == rows.drop_last() + seq![rows.last()]);
        } else {
            assert(files.drop_last() == before.drop_last());
            assert(rows_of(before) == rows_of(before.drop_last()) + before.last().rows);
            assert(rows_of(files) == rows_of(before.drop_last()) + before.last().rows.push(
                rows.last(),
            ));
            assert(rows_of(files) == rows.drop_last().push(rows.last()));
        }
    }
}

/// With rotation no file gets more rows than the limit, counting those that the
/// first one has already; the files are numbered one after the other, and all
/// but the first begin with the titles of the columns.
pub proof fn law_files_keep_the_limit(
    rows: Seq<Seq<Seq<char>>>,
    c: ChunkCursor,
    append: bool,
    rotate_rows: usize,
    i: int,
)
    requires
        rotate_rows > 0,
        c.rows_in_chunk <= rotate_rows,
        crate::chunks::has_room(c, rotate_rows, rows.len()),
        0 <= i < placed(rows, c, append, rotate_rows).len(),
    ensures
        ({
            let p = placed(rows, c, append, rotate_rows)[i];
            &&& p.chunk_no == c.chunk_no + i
            &&& i == 0 ==> c.rows_in_chunk + p.rows.len() <= rotate_rows && p.fresh == !append
            &&& i > 0 ==> 0 < p.rows.len() <= rotate_rows && p.fresh
        }),
{
    lemma_file_sizes(rows, c, append, rotate_rows);
}

proof fn lemma_file_sizes(
    rows: Seq<Seq<Seq<char>>>,
    c: ChunkCursor,
    append: bool,
    rotate_rows: usize,
)
    requires
        rotate_rows > 0,
        c.rows_in_chunk <= rotate_rows,
        crate::chunks::has_room(c, rotate_rows, rows.len()),
    ensures
        ({
            let files = placed(rows, c, append, rotate_rows);
            let end = crate::chunks::after_rows(c, rotate_rows, rows.len());
            &&& files.len() > 0
            &&& end.chunk_no == c.chunk_no + files.len() - 1
            &&& end.rows_in_chunk == files.last().rows.len() + if files.len() == 1 {
                c.rows_in_chunk as int
            } else {
                0
            }
            &&& forall|i: int|
                0 <= i < files.len() ==> {
                    let p = #[trigger] files[i];
                    &&& p.chunk_no == c.chunk_no + i
                    &&& i == 0 ==> c.rows_in_chunk + p.rows.len() <= rotate_rows && p.fresh
                        == !append
                    &&& i > 0 ==> 0 < p.rows.len() <= rotate_rows && p.fresh
                }
        }),
    decreases rows.len(),
{
    if rows.len() > 0 {
        let before = placed(rows.drop_last(), c, append, rotate_rows);
        let files = placed(rows, c, append, rotate_rows);
        let cursor = crate::chunks::after_rows(c, rotate_rows, (rows.len() - 1) as nat);
        lemma_file_sizes(rows.drop_last(), c, append, rotate_rows);
        assert(before.last() == before[before.len() - 1]);
        if crate::chunks::is_full(cursor, rotate_rows) {
            assert(files.last().rows.len() == 1);
            assert forall|i: int| 0 <= i < before.len() implies files[i] == before[i] by {}
        } else {
            assert(files.len() == before.len());
            assert(files.last() == files[files.len() - 1]);
            assert forall|i: int| 0 <= i < before.len() - 1 implies files[i] == before[i] by {}
        }
    }
}

/// A file that begins with the titles of the columns holds the text of a table:
/// the titles and its rows. So what a later run reads in it are these rows.
pub proof fn law_fresh_file_is_a_table(p: Placement)
    requires
        p.fresh,
        forall|i: int|
            0 <= i < p.rows.len() ==> (#[trigger] p.rows[i]).len() == crate::rows::COLUMNS,
    ensures
        placement_text(p) == crate::csv_text::csv_text(seq![crate::rows::header()] + p.rows),
        crate::csv_text::is_table(seq![crate::rows::header()] + p.rows),
        (seq![crate::rows::header()] + p.rows).skip(1) == p.rows,
{
    let titles = seq![crate::rows::header()];
    let table = titles + p.rows;
    crate::csv_text::law_tables_append(titles, p.rows);
    assert(titles.drop_last() == Seq::<Seq<Seq<char>>>::empty());
    assert(crate::csv_text::csv_text(titles.drop_last()) == Seq::<u8>::empty());
    assert(crate::csv_text::csv_text(titles) == crate::csv_text::csv_line(
        crate::rows::header(),
    ));
    reveal_strlit("file");
    assert(table[0] == crate::rows::header());
    assert("file"@[0] == 'f');
    assert forall|i: int| 0 <= i < table.len() implies (#[trigger] table[i]).len()
        == table[0].len() by {
        if i > 0 {
            assert(table[i] == p.rows[i - 1]);
        }
    }
    assert(table.skip(1) == p.rows);
}

/// A file that rows are appended to still holds the text of a table, which has
/// its old rows and behind them the new ones.
pub proof fn law_appended_file_is_a_table(table: Seq<Seq<Seq<char>>>, p: Placement)
    requires
        !p.fresh,
        crate::csv_text::is_table(table),
        table[0].len() == crate::rows::COLUMNS,
        forall|i: int|
            0 <= i < p.rows.len() ==> (#[trigger] p.rows[i]).len() == crate::rows::COLUMNS,
    ensures
        crate::csv_text::csv_text(table) + placement_text(p) == crate::csv_text::csv_text(
            table + p.rows,
        ),
        crate::csv_text::is_table(table + p.rows),
        (table + p.rows).skip(1) == table.skip(1) + p.rows,
{
    crate::csv_text::law_tables_append(table, p.rows);
    let all = table + p.rows;
    assert(all[0] == table[0]);
    assert forall|i: int| 0 <= i < all.len() implies (#[trigger] all[i]).len()
        == all[0].len() by {
        if i < table.len() {
            assert(all[i] == table[i]);
        } else {
            assert(all[i] == p.rows[i - table.len()]);
        }
    }
    assert(all.skip(1) == table.skip(1) + p.rows);
}

/// The titles of the columns stand at the start of every file that a run begins
/// and are not repeated in one that it appends to: without rotation it appends to
/// the output exactly where it is resumed, with rotation to the last chunk exactly
/// where it is resumed and that chunk has room.
pub proof fn law_titles_stand_once(
    rows: Seq<Seq<Seq<char>>>,
    append: bool,
    rotate_rows: usize,
    last_chunk: usize,
    last_chunk_rows: usize,
)
    requires
        last_chunk < usize::MAX,
        crate::chunks::has_room(
            crate::chunks::first_cursor(rotate_rows, append, last_chunk, last_chunk_rows),
            rotate_rows,
            rows.len(),
        ),
    ensures
        ({
            let c = crate::chunks::first_cursor(rotate_rows, append, last_chunk, last_chunk_rows);
            let files = placed(rows, c, first_appends(c, append, rotate_rows), rotate_rows);
            let appended = append && (rotate_rows == 0 || last_chunk > 0 && last_chunk_rows
                < rotate_rows);
            let titles = crate::csv_text::csv_line(crate::rows::header());
            &&& files.len() > 0
            &&& files[0].fresh <==> !appended
            &&& !appended ==> placement_text(files[0]) == titles + crate::csv_text::csv_text(
                files[0].rows,
            )
            &&& appended ==> placement_text(files[0]) == crate::csv_text::csv_text(files[0].rows)
            &&& forall|i: int|
                0 < i < files.len() ==> placement_text(#[trigger] files[i]) == titles
                    + crate::csv_text::csv_text(files[i].rows)
            &&& rotate_rows == 0 ==> files.len() == 1 && files[0].rows == rows
        }),
{
    let c = crate::chunks::first_cursor(rotate_rows, append, last_chunk, last_chunk_rows);
    let first = first_appends(c, append, rotate_rows);
    let files = placed(rows, c, first, rotate_rows);
    if rotate_rows > 0 {
        lemma_file_sizes(rows, c, first, rotate_rows);
    } else {
        lemma_one_file(rows, c, first);
    }
}

proof fn lemma_one_file(rows: Seq<Seq<Seq<char>>>, c: ChunkCursor, append: bool)
    ensures
        placed(rows, c, append, 0).len() == 1,
        placed(rows, c, append, 0)[0].fresh == !append,
        placed(rows, c, append, 0)[0].rows == rows,
    decreases rows.len(),
{
    if rows.len() > 0 {
        lemma_one_file(rows.drop_last(), c, append);
        assert(rows == rows.drop_last().push(rows.last()));
    } else {
        assert(rows =~= Seq::<Seq<Seq<char>>>::empty());
    }
}

} // verus!
