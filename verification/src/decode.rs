//! The file decoder: parses CSV bytes (with a header row) and normalizes
//! every record, in row order, into price entries.

use vstd::prelude::*;
use crate::entry::SolanaPriceEntry;
use crate::normalize::{
    normalize_record, time_spec, time_trunc, price_spec, combined_digits, ParseFieldError,
};

verus! {

/// What the csv crate reads from these bytes: the records after the header
/// row, each a sequence of fields, or nothing when the stream is malformed.
/// It depends on the bytes alone.
pub uninterp spec fn csv_rows_of(data: Seq<u8>) -> Option<Seq<Seq<Seq<char>>>>;

/// Relies on `csv::Reader::from_reader` and its `records` iterator: parses
/// the bytes as CSV with a header row and yields every record's fields in
/// order, or the first structural error, rendered as its message.
#[verifier::external_body]
fn parse_csv(data: &[u8]) -> (r: Result<Vec<Vec<String>>, String>)
    ensures
        r is Ok <==> csv_rows_of(data@) is Some,
        r matches Ok(rows) ==> rows.deep_view() == csv_rows_of(data@).unwrap(),
{
    let mut rdr = csv::Reader::from_reader(data);
    let mut rows: Vec<Vec<String>> = Vec::new();
    for result in rdr.records() {
        match result {
            Ok(record) => rows.push(record.iter().map(|f| f.to_string()).collect()),
            Err(e) => return Err(e.to_string()),
        }
    }
    Ok(rows)
}

/// A record missing field 0 or field 4 is skipped, not decoded.
pub open spec fn row_skipped(row: Seq<Seq<char>>) -> bool {
    row.len() < 5
}

/// A row that decodes without a field error: skipped, or both fields parse.
pub open spec fn row_ok(row: Seq<Seq<char>>) -> bool {
    row_skipped(row) || (time_spec(row[0]) is Some && price_spec(row[4]) is Some)
}

/// The entry a decodable, non-skipped row denotes.
pub open spec fn row_entry(row: Seq<Seq<char>>) -> SolanaPriceEntry {
    SolanaPriceEntry {
        time: time_spec(row[0]).unwrap(),
        close_price: price_spec(row[4]).unwrap(),
    }
}

pub open spec fn rows_all_ok(rows: Seq<Seq<Seq<char>>>) -> bool {
    forall|i: int| 0 <= i < rows.len() ==> row_ok(#[trigger] rows[i])
}

/// The entries of a sequence of decodable rows, in row order, skipped rows
/// contributing nothing.
pub open spec fn entries_of_rows(rows: Seq<Seq<Seq<char>>>) -> Seq<SolanaPriceEntry>
    decreases rows.len(),
{
    if rows.len() == 0 {
        Seq::empty()
    } else {
        let init = entries_of_rows(rows.drop_last());
        if row_skipped(rows.last()) {
            init
        } else {
            init.push(row_entry(rows.last()))
        }
    }
}

/// The field error a failing row produces: the timestamp's truncated text
/// when the timestamp fails, else the price's concatenated digit text.
pub open spec fn field_error_matches(e: ParseFieldError, row: Seq<Seq<char>>) -> bool {
    if time_spec(row[0]) is None {
        e matches ParseFieldError::Timestamp { text } && text@ == time_trunc(row[0])
    } else {
        e matches ParseFieldError::Price { text } && text@ == combined_digits(row[4])
    }
}

/// Decoding a whole CSV file fails either on a malformed stream or on the
/// first record with an unparseable required field.
#[derive(Debug, PartialEq, Eq)]
pub enum DecodeError {
    Csv { message: String },
    Field { error: ParseFieldError },
}

/// Decodes CSV bytes into the ordered entries of their records: every
/// record past the header row is normalized in row order; records missing a
/// required field are skipped; the first structural or field failure fails
/// the whole operation.
pub fn get_vector(data: &[u8]) -> (r: Result<Vec<SolanaPriceEntry>, DecodeError>)
    ensures
        csv_rows_of(data@) is None <==> (r matches Err(e) && e is Csv),
        csv_rows_of(data@) matches Some(rows) ==> {
            &&& (r is Ok <==> rows_all_ok(rows))
            &&& (r matches Ok(v) ==> v@ == entries_of_rows(rows))
            &&& !rows_all_ok(rows) ==> (exists|i: int|
                0 <= i < rows.len() && !(#[trigger] row_ok(rows[i])) && (forall|j: int|
                    0 <= j < i ==> row_ok(#[trigger] rows[j])) && (r matches Err(
                    DecodeError::Field { error },
                ) && field_error_matches(error, rows[i])))
        },
{
    let rows = match parse_csv(data) {
        Ok(rows) => rows,
        Err(message) => {
            return Err(DecodeError::Csv { message });
        },
    };
    let ghost rs = csv_rows_of(data@).unwrap();
    let mut vec: Vec<SolanaPriceEntry> = Vec::new();
    let mut i: usize = 0;
    while i < rows.len()
        invariant
            0 <= i <= rows@.len(),
            csv_rows_of(data@) == Some(rs),
            rows.deep_view() == rs,
            rs.len() == rows@.len(),
            vec@ == entries_of_rows(rs.take(i as int)),
            forall|j: int| 0 <= j < i ==> row_ok(#[trigger] rs[j]),
        decreases rows@.len() - i,
    {
        proof {
            assert(rows.deep_view()[i as int] == rows@[i as int].deep_view());
            assert(rs.take(i + 1).drop_last() =~= rs.take(i as int));
            assert(rs.take(i + 1).last() == rs[i as int]);
        }
        match normalize_record(&rows[i]) {
            Ok(Some(e)) => {
                vec.push(e);
            },
            Ok(None) => {},
            Err(error) => {
                proof {
                    assert(!row_ok(rs[i as int]));
                    assert(field_error_matches(error, rs[i as int]));
                }
                return Err(DecodeError::Field { error });
            },
        }
        i = i + 1;
    }
    proof {
        assert(rs.take(rs.len() as int) =~= rs);
    }
    Ok(vec)
}

} // verus!
