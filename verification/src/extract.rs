//! Extraction of CDX rows from query responses.
//!
//! A response holds one capture record per line, with seven, nine or eleven fields separated by
//! single spaces, of which the first six are the SURT key, timestamp, URL, MIME type, status and
//! digest. A hyphen stands for a field that is absent.
use vstd::prelude::*;

use crate::decimal;
use crate::decimal::push_decimal;
use crate::lines;
use crate::lines::split_lines;
use crate::tabular;
use crate::tabular::row_line;
use crate::text;
use crate::text::{append, chars_of, same_chars, split_chars, string_of};
use crate::timestamp;
use crate::timestamp::test_capture_text;
use crate::validation::utf8_text;

verus! {

/// What stands for a field that is absent.
pub const ABSENT: &'static str = "-";

/// The greatest status that a record can have.
pub const MAX_STATUS: u64 = 65_535;

/// A response could not be extracted.
#[derive(Clone, Copy, Debug, PartialEq, Eq, Structural)]
pub enum Error {
    /// The response is not UTF-8.
    Utf8,
    /// A line does not use a supported standard CDX layout.
    UnsupportedCdxLayout {
        /// The one-based line number within the response body.
        line: usize,
        /// The number of space-delimited fields in the row.
        actual: usize,
    },
    /// A line is not a valid CDX record.
    Cdx {
        /// The one-based line number within the response body.
        line: usize,
    },
}

/// What a line is.
#[verifier::ext_equal]
pub enum Row {
    /// A record, with the fields that are extracted: URL, timestamp, digest, MIME type and status.
    Record(Seq<Seq<char>>),
    /// A line with this number of fields, which is no standard one.
    UnsupportedLayout(nat),
    /// A record with an invalid field.
    Invalid,
}

/// The status that a field stands for.
pub open spec fn status_text(field: Seq<char>) -> Option<Seq<char>> {
    if field == ABSENT@ {
        Some(ABSENT@)
    } else if field.len() > 0 && decimal::all_digits(field) && decimal::number_of(field)
        <= MAX_STATUS {
        Some(decimal::decimal(decimal::number_of(field)))
    } else {
        None
    }
}

/// What a line is.
pub open spec fn row_of(line: Seq<char>) -> Row {
    let fields = text::split(line, ' ');
    if fields.len() != 7 && fields.len() != 9 && fields.len() != 11 {
        Row::UnsupportedLayout(fields.len())
    } else if !timestamp::is_capture_text(fields[1]) || status_text(fields[4]) is None {
        Row::Invalid
    } else {
        Row::Record(
            seq![fields[2], fields[1], fields[5], fields[3], status_text(fields[4]).unwrap()],
        )
    }
}

/// How many lines come before the first empty one. A resumption key, when present, follows an empty
/// line and is not a record.
pub open spec fn record_count(all: Seq<Seq<char>>) -> nat
    decreases all.len(),
{
    if all.len() == 0 || all[0].len() == 0 {
        0
    } else {
        1 + record_count(all.drop_first())
    }
}

/// The records of lines, as comma-separated values.
pub open spec fn csv_of(all: Seq<Seq<char>>) -> Seq<char>
    decreases all.len(),
{
    if all.len() == 0 {
        Seq::empty()
    } else {
        csv_of(all.drop_last()) + tabular::csv_line(row_of(all.last())->Record_0)
    }
}

/// Whether every line is a record.
pub open spec fn are_records(all: Seq<Seq<char>>) -> bool {
    forall|i: int| 0 <= i < all.len() ==> row_of(#[trigger] all[i]) is Record
}

/// Reads a number of up to [`MAX_STATUS`].
fn read_status(field: &[char]) -> (status: Option<String>)
    ensures
        match status {
            Some(status) => status_text(field@) == Some(status@),
            None => status_text(field@) is None,
        },
{
    let absent = chars_of(ABSENT);
    if same_chars(field, &absent) {
        return Some(ABSENT.to_owned());
    }
    if field.len() == 0 {
        return None;
    }
    let mut number: u64 = 0;
    let mut is_large: bool = false;
    let mut i: usize = 0;
    assert(decimal::digit_values(field@.take(0)) =~= Seq::empty());
    while i < field.len()
        invariant
            i <= field@.len(),
            field@ != ABSENT@,
            number <= MAX_STATUS,
            decimal::all_digits(field@.take(i as int)),
            !is_large ==> number == decimal::number_of(field@.take(i as int)),
            is_large ==> decimal::number_of(field@.take(i as int)) > MAX_STATUS,
        decreases field@.len() - i,
    {
        let c = field[i];
        let ghost front = field@.take(i as int);
        let ghost next = field@.take(i + 1);
        assert(next =~= front.push(c));
        if c < '0' || c > '9' {
            assert(!decimal::is_digit(field@[i as int]));
            return None;
        }
        let digit: u64 = c as u64 - '0' as u64;
        proof {
            assert(decimal::digit_values(next) =~= decimal::digit_values(front).push(digit as nat));
            crate::numeral::lemma_value_push(decimal::digit_values(front), digit as nat, 10);
        }
        if !is_large {
            let sum: u64 = number * 10 + digit;
            if sum > MAX_STATUS {
                is_large = true;
            } else {
                number = sum;
            }
        }
        i = i + 1;
    }
    assert(field@.take(field@.len() as int) =~= field@);
    if is_large {
        return None;
    }
    let mut out: Vec<char> = Vec::new();
    push_decimal(&mut out, number);
    assert(out@ =~= decimal::decimal(number as nat));
    Some(string_of(&out))
}

/// Reads the record on a line.
fn read_record(line: &str, number: usize) -> (result: Result<Vec<String>, Error>)
    ensures
        match result {
            Ok(row) => row_of(line@) == Row::Record(lines::string_views(row@)),
            Err(Error::UnsupportedCdxLayout { line: at, actual }) => at == number && row_of(line@)
                == Row::UnsupportedLayout(actual as nat),
            Err(Error::Cdx { line: at }) => at == number && row_of(line@) == Row::Invalid,
            Err(_) => false,
        },
{
    let chars = chars_of(line);
    let fields = split_chars(&chars, ' ');
    let ghost views = text::char_views(fields@);
    let count: usize = fields.len();
    if count != 7 && count != 9 && count != 11 {
        return Err(Error::UnsupportedCdxLayout { line: number, actual: count });
    }
    assert(forall|i: int| 0 <= i < fields@.len() ==> views[i] == (#[trigger] fields@[i])@);
    if !test_capture_text(&fields[1]) {
        return Err(Error::Cdx { line: number });
    }
    let status = match read_status(&fields[4]) {
        Some(status) => status,
        None => return Err(Error::Cdx { line: number }),
    };
    let mut row: Vec<String> = Vec::new();
    row.push(string_of(&fields[2]));
    row.push(string_of(&fields[1]));
    row.push(string_of(&fields[5]));
    row.push(string_of(&fields[3]));
    row.push(status);
    assert(lines::string_views(row@) =~= row_of(line@)->Record_0);
    Ok(row)
}

/// How the records of lines are counted from the front.
proof fn lemma_record_count(all: Seq<Seq<char>>, i: int)
    requires
        0 <= i <= all.len(),
        forall|k: int| 0 <= k < i ==> (#[trigger] all[k]).len() > 0,
    ensures
        record_count(all) == i + record_count(all.skip(i)),
        record_count(all) <= all.len(),
    decreases all.len(),
{
    if i > 0 {
        assert(all[0].len() > 0);
        assert forall|k: int| 0 <= k < i - 1 implies (#[trigger] all.drop_first()[k]).len() > 0 by {
            assert(all[k + 1].len() > 0);
        }
        lemma_record_count(all.drop_first(), i - 1);
        assert(all.drop_first().skip(i - 1) =~= all.skip(i));
    } else {
        assert(all.skip(0) =~= all);
        if all.len() > 0 && all[0].len() > 0 {
            lemma_record_count(all.drop_first(), 0);
        }
    }
}

/// The extracted status reads back as the number in the status field, written without zeros in front, and is a
/// hyphen exactly if the field is a hyphen. A field that is neither a hyphen nor a number of up to 16 bits is
/// no status.
pub proof fn law_status_reads_back(field: Seq<char>)
    ensures
        status_text(field) is Some <==> {
            ||| field == seq!['-']
            ||| field.len() > 0 && decimal::all_digits(field) && decimal::number_of(field) < 0x1_0000
        },
        status_text(field) matches Some(status) ==> {
            &&& status == seq!['-'] <==> field == seq!['-']
            &&& field != seq!['-'] ==> {
                &&& status.len() > 0
                &&& decimal::all_digits(status)
                &&& decimal::number_of(status) == decimal::number_of(field)
                &&& status[0] == '0' ==> status.len() == 1
            }
        },
{
    reveal_strlit("-");
    assert(ABSENT@ =~= seq!['-']);
    if field != ABSENT@ && decimal::all_digits(field) {
        decimal::lemma_width(decimal::number_of(field));
        decimal::law_decimal_is_shortest(decimal::number_of(field));
        let status = decimal::decimal(decimal::number_of(field));
        assert(decimal::is_digit(status[0]));
    }
}

/// A line with seven, nine or eleven fields, a capture time in the second and a status in the fifth is a
/// record. Its URL, timestamp, digest and MIME type are extracted as they stand, in that order, and then its
/// status. A line with another number of fields is reported with that number.
pub proof fn law_records_hold_the_fields(fields: Seq<Seq<char>>)
    requires
        fields.len() > 0,
        forall|i: int| 0 <= i < fields.len() ==> !(#[trigger] fields[i]).contains(' '),
    ensures
        ({
            let row = row_of(text::join(fields, seq![' ']));
            if fields.len() == 7 || fields.len() == 9 || fields.len() == 11 {
                if timestamp::is_capture_text(fields[1]) && status_text(fields[4]) is Some {
                    &&& row is Record
                    &&& row->Record_0.len() == 5
                    &&& row->Record_0[0] == fields[2]
                    &&& row->Record_0[1] == fields[1]
                    &&& row->Record_0[2] == fields[5]
                    &&& row->Record_0[3] == fields[3]
                    &&& Some(row->Record_0[4]) == status_text(fields[4])
                } else {
                    row == Row::Invalid
                }
            } else {
                row == Row::UnsupportedLayout(fields.len())
            }
        }),
{
    text::law_joined_splits_back(fields, ' ');
}

/// The records of a response are the lines before its first empty line, or all of its lines.
pub proof fn law_records_end_at_an_empty_line(all: Seq<Seq<char>>)
    ensures
        record_count(all) <= all.len(),
        forall|i: int| 0 <= i < record_count(all) ==> (#[trigger] all[i]).len() > 0,
        record_count(all) < all.len() ==> all[record_count(all) as int].len() == 0,
    decreases all.len(),
{
    if all.len() > 0 && all[0].len() > 0 {
        let rest = all.drop_first();
        law_records_end_at_an_empty_line(rest);
        assert forall|i: int| 0 <= i < record_count(all) implies (#[trigger] all[i]).len() > 0 by {
            if i > 0 {
                assert(rest[i - 1].len() > 0);
            }
        }
    }
}

/// Each record is written as a line of comma-separated values, in the order of the response.
pub proof fn law_every_record_is_written(all: Seq<Seq<char>>, line: Seq<char>)
    ensures
        csv_of(Seq::empty()) == Seq::<char>::empty(),
        csv_of(all.push(line)) == csv_of(all) + tabular::csv_line(row_of(line)->Record_0),
{
    assert(all.push(line).drop_last() =~= all);
}

/// Appends the records of the lines of a response, as comma-separated values without a header. The
/// records before a line that is none are appended.
pub fn extract_lines(all: &Vec<String>, output: &mut String) -> (result: Result<(), Error>)
    ensures
        ({
            let views = lines::string_views(all@);
            let records = views.take(record_count(views) as int);
            match result {
                Ok(_) => {
                    &&& are_records(records)
                    &&& final(output)@ == old(output)@ + csv_of(records)
                },
                Err(Error::UnsupportedCdxLayout { line, actual }) => {
                    &&& 0 < line <= records.len()
                    &&& are_records(records.take(line - 1))
                    &&& row_of(records[line - 1]) == Row::UnsupportedLayout(actual as nat)
                    &&& final(output)@ == old(output)@ + csv_of(records.take(line - 1))
                },
                Err(Error::Cdx { line }) => {
                    &&& 0 < line <= records.len()
                    &&& are_records(records.take(line - 1))
                    &&& row_of(records[line - 1]) == Row::Invalid
                    &&& final(output)@ == old(output)@ + csv_of(records.take(line - 1))
                },
                Err(Error::Utf8) => false,
            }
        }),
{
    let ghost views = lines::string_views(all@);
    let ghost records = views.take(record_count(views) as int);
    let mut i: usize = 0;
    assert(views.take(0) =~= Seq::empty());
    assert(output@ + csv_of(Seq::empty()) =~= output@);
    while i < all.len()
        invariant
            i <= all@.len(),
            views == lines::string_views(all@),
            records == views.take(record_count(views) as int),
            forall|k: int| 0 <= k < i ==> (#[trigger] views[k]).len() > 0,
            are_records(views.take(i as int)),
            output@ == old(output)@ + csv_of(views.take(i as int)),
        decreases all@.len() - i,
    {
        proof {
            lemma_record_count(views, i as int);
            assert(views[i as int] == all@[i as int]@);
            assert(views.skip(i as int)[0] == views[i as int]);
        }
        if all[i].as_str().is_empty() {
            assert(record_count(views) == i);
            return Ok(());
        }
        proof {
            lemma_record_count(views, i + 1);
            assert(records[i as int] == views[i as int]);
            assert(records.take(i as int) =~= views.take(i as int));
        }
        let row = match read_record(all[i].as_str(), i + 1) {
            Ok(row) => row,
            Err(error) => return Err(error),
        };
        let line = row_line(&row);
        let ghost before = output@;
        append(output, line.as_str());
        proof {
            let next = views.take(i + 1);
            assert(next.drop_last() =~= views.take(i as int));
            assert(next.last() == views[i as int]);
            assert(output@ =~= old(output)@ + csv_of(next));
            assert forall|k: int| 0 <= k < next.len() implies row_of(#[trigger] next[k]) is Record by {
                if k < i {
                    assert(views.take(i as int)[k] == views[k]);
                }
            }
        }
        i = i + 1;
    }
    proof {
        lemma_record_count(views, i as int);
        assert(views.skip(i as int) =~= Seq::empty());
        assert(records =~= views.take(i as int));
    }
    Ok(())
}

/// Appends the records of a response, as comma-separated values without a header.
pub fn extract_payload(payload: &[u8], output: &mut String) -> (result: Result<(), Error>)
    ensures
        ({
            let views = lines::lines(vstd::utf8::decode_utf8(payload@));
            let records = views.take(record_count(views) as int);
            match result {
                Ok(_) => {
                    &&& vstd::utf8::valid_utf8(payload@)
                    &&& are_records(records)
                    &&& final(output)@ == old(output)@ + csv_of(records)
                },
                Err(Error::UnsupportedCdxLayout { line, actual }) => {
                    &&& vstd::utf8::valid_utf8(payload@)
                    &&& 0 < line <= records.len()
                    &&& are_records(records.take(line - 1))
                    &&& row_of(records[line - 1]) == Row::UnsupportedLayout(actual as nat)
                    &&& final(output)@ == old(output)@ + csv_of(records.take(line - 1))
                },
                Err(Error::Cdx { line }) => {
                    &&& vstd::utf8::valid_utf8(payload@)
                    &&& 0 < line <= records.len()
                    &&& are_records(records.take(line - 1))
                    &&& row_of(records[line - 1]) == Row::Invalid
                    &&& final(output)@ == old(output)@ + csv_of(records.take(line - 1))
                },
                Err(Error::Utf8) => {
                    &&& !vstd::utf8::valid_utf8(payload@)
                    &&& *final(output) == *old(output)
                },
            }
        }),
{
    let response = match utf8_text(payload) {
        Some(response) => response,
        None => return Err(Error::Utf8),
    };
    proof {
        vstd::utf8::encode_utf8_decode_utf8(response@);
        vstd::utf8::encode_utf8_valid_utf8(response@);
    }
    let all = split_lines(response.as_str());
    extract_lines(&all, output)
}

/// A response that is not UTF-8 gives nothing. Of any other the records are appended to what was extracted, up to
/// the first line that is none, which is reported by its number.
pub proof fn law_responses_are_extracted(payload: &[u8], output: &mut String, result: Result<(), Error>)
    requires
        call_ensures(extract_payload, (payload, output), result),
    ensures
        ({
            let all = lines::lines(vstd::utf8::decode_utf8(payload@));
            let n = record_count(all) as int;
            &&& result == Err::<(), Error>(Error::Utf8) <==> !vstd::utf8::valid_utf8(payload@)
            &&& result is Ok ==> {
                &&& forall|i: int| 0 <= i < n ==> row_of(#[trigger] all[i]) is Record
                &&& final(output)@ == old(output)@ + csv_of(all.take(n))
            }
            &&& result matches Err(Error::Cdx { line }) ==> {
                &&& 0 < line <= n
                &&& row_of(all[line - 1]) == Row::Invalid
                &&& final(output)@ == old(output)@ + csv_of(all.take(line - 1))
            }
            &&& result matches Err(Error::UnsupportedCdxLayout { line, actual }) ==> {
                &&& 0 < line <= n
                &&& text::split(all[line - 1], ' ').len() == actual
                &&& final(output)@ == old(output)@ + csv_of(all.take(line - 1))
            }
        }),
{
    let all = lines::lines(vstd::utf8::decode_utf8(payload@));
    law_records_end_at_an_empty_line(all);
    let n = record_count(all) as int;
    let records = all.take(n);
    if result is Ok {
        assert forall|i: int| 0 <= i < n implies row_of(#[trigger] all[i]) is Record by {
            assert(records[i] == all[i]);
        }
    }
    if let Err(Error::Cdx { line }) = result {
        assert(records[line - 1] == all[line - 1]);
        assert(records.take(line - 1) =~= all.take(line - 1));
    }
    if let Err(Error::UnsupportedCdxLayout { line, actual }) = result {
        assert(records[line - 1] == all[line - 1]);
        assert(records.take(line - 1) =~= all.take(line - 1));
    }
}

} // verus!
