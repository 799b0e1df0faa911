//! Comma-separated values as the `csv` crate reads them.
use vstd::prelude::*;

use crate::lines;
use crate::text;

verus! {

/// The texts of rows.
pub open spec fn row_views(rows: Seq<Vec<String>>) -> Seq<Seq<Seq<char>>> {
    rows.map_values(|row: Vec<String>| lines::string_views(row@))
}

/// The rows of a text of comma-separated values without a header, or `None` if its rows do not all
/// have the same number of fields.
pub uninterp spec fn csv_rows(text: Seq<char>) -> Option<Seq<Seq<Seq<char>>>>;

/// `csv::Reader::records` of a reader without headers: the rows of a text.
#[verifier::external_body]
pub(crate) fn parse_rows(text: &str) -> (rows: Option<Vec<Vec<String>>>)
    ensures
        match rows {
            Some(rows) => csv_rows(text@) == Some(row_views(rows@)),
            None => csv_rows(text@) is None,
        },
{
    let mut reader = csv::ReaderBuilder::new().has_headers(false).from_reader(text.as_bytes());
    let records = reader.records().collect::<Result<Vec<_>, _>>().ok()?;
    Some(records.iter().map(|record| record.iter().map(|field| field.to_owned()).collect()).collect())
}

/// The rows of a text of comma-separated values without a header, of any number of fields, each field
/// without the whitespace around it, or `None` if the text cannot be read.
pub uninterp spec fn csv_trimmed_rows(text: Seq<char>) -> Option<Seq<Seq<Seq<char>>>>;

/// `csv::Reader::records` of a flexible reader without headers that trims fields: the rows of a text.
#[verifier::external_body]
pub(crate) fn parse_trimmed_rows(text: &str) -> (rows: Option<Vec<Vec<String>>>)
    ensures
        match rows {
            Some(rows) => csv_trimmed_rows(text@) == Some(row_views(rows@)),
            None => csv_trimmed_rows(text@) is None,
        },
{
    let mut reader = csv::ReaderBuilder::new().has_headers(false).flexible(true).trim(
        csv::Trim::All,
    ).from_reader(text.as_bytes());
    let records = reader.records().collect::<Result<Vec<_>, _>>().ok()?;
    Some(records.iter().map(|record| record.iter().map(|field| field.to_owned()).collect()).collect())
}

/// Whether a field holds a comma, a quote or a line break.
pub open spec fn needs_quotes(field: Seq<char>) -> bool {
    exists|i: int|
        0 <= i < field.len() && (#[trigger] field[i] == ',' || field[i] == '"' || field[i] == '\r'
            || field[i] == '\n')
}

/// A text with each quote doubled.
pub open spec fn with_doubled_quotes(field: Seq<char>) -> Seq<char>
    decreases field.len(),
{
    if field.len() == 0 {
        Seq::empty()
    } else {
        with_doubled_quotes(field.drop_last()) + if field.last() == '"' {
            seq!['"', '"']
        } else {
            seq![field.last()]
        }
    }
}

/// A field of comma-separated values, quoted where it has to be.
pub open spec fn csv_field(field: Seq<char>) -> Seq<char> {
    if needs_quotes(field) {
        seq!['"'] + with_doubled_quotes(field) + seq!['"']
    } else {
        field
    }
}

/// A row as a line of comma-separated values, with its line feed. A line that would be empty has a pair of
/// quotes.
#[verifier::opaque]
pub open spec fn csv_line(row: Seq<Seq<char>>) -> Seq<char> {
    let fields = text::join(row.map_values(|field: Seq<char>| csv_field(field)), seq![',']);
    if fields.len() == 0 {
        seq!['"', '"', '\n']
    } else {
        fields + seq!['\n']
    }
}

/// `csv::Writer::write_record` of a writer that was just made, and what it wrote: the fields separated by
/// commas, those that need it in quotes, and a line feed.
#[verifier::external_body]
pub(crate) fn row_line(row: &Vec<String>) -> (line: String)
    ensures
        line@ == csv_line(lines::string_views(row@)),
{
    let mut writer = csv::WriterBuilder::new().has_headers(false).from_writer(Vec::new());
    writer.write_record(row).unwrap();
    String::from_utf8(writer.into_inner().unwrap()).unwrap()
}

/// A field is written as it is unless it holds a comma, a quote, a carriage return or a line feed. Then it
/// stands between quotes, each quote in it doubled.
pub proof fn law_fields_are_quoted(field: Seq<char>, c: char)
    ensures
        !field.contains(',') && !field.contains('"') && !field.contains('\r') && !field.contains('\n')
            ==> csv_field(field) == field,
        field.contains(',') || field.contains('"') || field.contains('\r') || field.contains('\n')
            ==> csv_field(field) == seq!['"'] + with_doubled_quotes(field) + seq!['"'],
        with_doubled_quotes(Seq::empty()) == Seq::<char>::empty(),
        with_doubled_quotes(field.push(c)) == with_doubled_quotes(field).push(c) + if c == '"' {
            seq!['"']
        } else {
            Seq::empty()
        },
{
    if needs_quotes(field) {
        let i = choose|i: int|
            0 <= i < field.len() && (#[trigger] field[i] == ',' || field[i] == '"' || field[i] == '\r'
                || field[i] == '\n');
        assert(field.contains(field[i]));
    }
    assert(field.push(c).drop_last() =~= field);
    assert(with_doubled_quotes(field.push(c)) =~= with_doubled_quotes(field).push(c) + if c == '"' {
        seq!['"']
    } else {
        Seq::empty()
    });
}

/// A row is written as its fields with commas between them and a line feed at the end. A row of a single empty
/// field is written as two quotes.
pub proof fn law_rows_are_lines(row: Seq<Seq<char>>, field: Seq<char>)
    ensures
        field.len() > 0 ==> csv_line(seq![field]) == csv_field(field) + seq!['\n'],
        csv_line(seq![Seq::empty()]) == seq!['"', '"', '\n'],
        row.len() > 0 && (row.len() > 1 || row[0].len() > 0) ==> csv_line(row.push(field))
            == csv_line(row).drop_last() + seq![','] + csv_field(field) + seq!['\n'],
{
    reveal(csv_line);
    reveal_with_fuel(text::join, 2);
    let write = |field: Seq<char>| csv_field(field);
    assert(seq![field].map_values(write) =~= seq![csv_field(field)]);
    assert(text::join(seq![csv_field(field)], seq![',']) =~= csv_field(field));
    assert(seq![Seq::<char>::empty()].map_values(write) =~= seq![csv_field(Seq::empty())]);
    assert(csv_field(Seq::empty()) =~= Seq::<char>::empty());
    assert(text::join(seq![Seq::<char>::empty()], seq![',']) =~= Seq::empty());
    if row.len() > 0 && (row.len() > 1 || row[0].len() > 0) {
        let parts = row.map_values(write);
        assert(row.push(field).map_values(write) =~= parts.push(csv_field(field)));
        assert(parts.push(csv_field(field)).drop_last() =~= parts);
        assert(text::join(parts.push(csv_field(field)), seq![',']) == text::join(parts, seq![','])
            + seq![','] + csv_field(field));
        if row.len() == 1 {
            assert(parts =~= seq![csv_field(row[0])]);
        }
        assert(text::join(parts, seq![',']).len() > 0);
        assert(csv_line(row).drop_last() =~= text::join(parts, seq![',']));
    }
}

} // verus!
