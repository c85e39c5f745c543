//! Comma-separated text: records out to bytes and bytes back to records.

use vstd::prelude::*;

verus! {

/// A byte that a field is put in quotes for: comma, quote, carriage return and
/// line feed.
pub open spec fn is_special(b: u8) -> bool {
    b == 0x2c || b == 0x22 || b == 0x0d || b == 0x0a
}

/// The bytes with every quote doubled.
pub open spec fn quotes_doubled(bytes: Seq<u8>) -> Seq<u8>
    decreases bytes.len(),
{
    if bytes.len() == 0 {
        seq![]
    } else if bytes.last() == 0x22 {
        quotes_doubled(bytes.drop_last()) + seq![0x22u8, 0x22u8]
    } else {
        quotes_doubled(bytes.drop_last()).push(bytes.last())
    }
}

/// The bytes of one field: UTF-8, in quotes where a special byte occurs.
pub open spec fn csv_field(field: Seq<char>) -> Seq<u8> {
    let bytes = vstd::utf8::encode_utf8(field);
    if exists|i: int| 0 <= i < bytes.len() && is_special(#[trigger] bytes[i]) {
        seq![0x22u8] + quotes_doubled(bytes) + seq![0x22u8]
    } else {
        bytes
    }
}

/// The bytes of fields with commas between them.
pub open spec fn csv_fields(fields: Seq<Seq<char>>) -> Seq<u8>
    decreases fields.len(),
{
    if fields.len() == 0 {
        seq![]
    } else if fields.len() == 1 {
        csv_field(fields[0])
    } else {
        csv_fields(fields.drop_last()).push(0x2c) + csv_field(fields.last())
    }
}

/// The bytes of one record: its fields and a line feed. A record of one empty
/// field shows as two quotes, for it would not be seen otherwise.
pub open spec fn csv_line(fields: Seq<Seq<char>>) -> Seq<u8> {
    let bytes = csv_fields(fields);
    if bytes.len() == 0 {
        seq![0x22u8, 0x22u8, 0x0au8]
    } else {
        bytes.push(0x0a)
    }
}

/// The data records that the `csv` crate finds in a text with a header line.
pub uninterp spec fn csv_rows(content: Seq<u8>) -> Seq<Seq<Seq<char>>>;

/// The text of a whole table: its records, line after line.
pub open spec fn csv_text(table: Seq<Seq<Seq<char>>>) -> Seq<u8>
    decreases table.len(),
{
    if table.len() == 0 {
        seq![]
    } else {
        csv_text(table.drop_last()) + csv_line(table.last())
    }
}

/// A header and data records with as many fields each; the header does not
/// begin with a byte order mark.
pub open spec fn is_table(table: Seq<Seq<Seq<char>>>) -> bool {
    &&& table.len() > 0
    &&& table[0].len() > 0
    &&& table[0][0].len() > 0 ==> table[0][0][0] != '\u{feff}'
    &&& forall|i: int| 0 <= i < table.len() ==> (#[trigger] table[i]).len() == table[0].len()
}

/// The contents of a list of records.
pub open spec fn rows_view(rows: Seq<Vec<String>>) -> Seq<Seq<Seq<char>>> {
    rows.map_values(|r: Vec<String>| crate::text::views(r@))
}

/// `csv::Writer` over a byte vector, default settings: `write_record` separates
/// the fields of a record by commas, puts a field in quotes where it holds a
/// comma, a quote or a line end, doubles the quotes in it, and ends the record
/// with a line feed.
#[verifier::external_body]
pub(crate) fn write_line(fields: &[String]) -> (line: Vec<u8>)
    requires
        fields@.len() > 0,
    ensures
        line@ == csv_line(crate::text::views(fields@)),
{
    let mut w = csv::Writer::from_writer(Vec::new());
    w.write_record(fields).expect("a byte vector takes every record");
    w.into_inner().expect("a byte vector takes every flush")
}

/// `csv::Reader` over the bytes, default settings: the records that follow the
/// header, without those that are in error. Of a table that `csv::Writer`
/// wrote, with records of one length, it gives back the data records.
#[verifier::external_body]
pub(crate) fn read_rows(content: &[u8]) -> (rows: Vec<Vec<String>>)
    ensures
        rows_view(rows@) == csv_rows(content@),
        forall|table: Seq<Seq<Seq<char>>>|
            #[trigger] csv_text(table) == content@ && is_table(table) ==> rows_view(rows@)
                == table.skip(1),
{
    let mut reader = csv::Reader::from_reader(content);
    reader.records().flatten().map(|r| r.iter().map(str::to_string).collect()).collect()
}

/// The text of a table whose records all have at least one field.
pub fn write_table(table: &Vec<Vec<String>>) -> (text: Vec<u8>)
    requires
        forall|i: int| 0 <= i < table@.len() ==> (#[trigger] table@[i])@.len() > 0,
    ensures
        text@ == csv_text(rows_view(table@)),
{
    let mut text: Vec<u8> = Vec::new();
    let ghost all = rows_view(table@);
    for i in 0..table.len()
        invariant
            all == rows_view(table@),
            text@ == csv_text(all.take(i as int)),
            forall|k: int| 0 <= k < table@.len() ==> (#[trigger] table@[k])@.len() > 0,
    {
        let mut line = write_line(&table[i]);
        text.append(&mut line);
        proof {
            assert(all.take(i + 1).drop_last() == all.take(i as int));
            assert(all.take(i + 1).last() == crate::text::views(table@[i as int]@));
        }
    }
    proof {
        assert(all.take(table@.len() as int) == all);
    }
    text
}

/// The text of two tables, one behind the other, is the text of the table that
/// holds the records of both.
pub proof fn law_tables_append(first: Seq<Seq<Seq<char>>>, second: Seq<Seq<Seq<char>>>)
    ensures
        csv_text(first + second) == csv_text(first) + csv_text(second),
    decreases second.len(),
{
    if second.len() == 0 {
        assert(first + second == first);
        assert(csv_text(first) + csv_text(second) == csv_text(first));
    } else {
        law_tables_append(first, second.drop_last());
        assert((first + second).drop_last() == first + second.drop_last());
        assert(csv_text(first + second) == csv_text(first) + csv_text(second));
    }
}

} // verus!
