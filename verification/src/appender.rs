//! The binary appender: validates the new batch's start time against the
//! destination's recorded start time, then appends the batch's byte image.
//! The destination file is modelled as the byte vector of its contents.

use vstd::prelude::*;
use vstd::bytes::{spec_u32_from_le_bytes, u32_from_le_bytes};
use vstd::slice::slice_subrange;
use crate::codec::{encoding_of, encode_entries};
use crate::entry::SolanaPriceEntry;

verus! {

/// The UTC rendering (`%Y-%m-%d %H:%M:%S UTC`) of a second-resolution
/// timestamp; it depends on the timestamp alone.
pub uninterp spec fn utc_of(ts: u32) -> Seq<char>;

/// Relies on chrono's `DateTime::from_timestamp` and its `%Y-%m-%d %H:%M:%S`
/// formatting to render a timestamp as a UTC date string; `from_timestamp`
/// accepts every second count that fits in a `u32`.
#[verifier::external_body]
fn utc_string(ts: u32) -> (r: String)
    ensures
        r@ == utc_of(ts),
{
    match chrono::DateTime::from_timestamp(ts as i64, 0) {
        Some(dt) => dt.format("%Y-%m-%d %H:%M:%S UTC").to_string(),
        None => ts.to_string(),
    }
}

/// The ordering violation: the destination already holds a first record
/// whose timestamp postdates the new batch's first timestamp.
pub open spec fn ordering_violation(file: Seq<u8>, entries: Seq<SolanaPriceEntry>) -> bool {
    file.len() >= 8 && entries.len() > 0 && spec_u32_from_le_bytes(file.take(4)) > entries[0].time
}

/// A rejected append: both start times, with their UTC renderings.
#[derive(Debug)]
pub struct TimelineError {
    pub file_start: u32,
    pub batch_start: u32,
    pub file_start_utc: String,
    pub batch_start_utc: String,
}

/// Appends a batch to the destination (given as its current contents):
/// either the whole byte image of the batch is appended, or, on an ordering
/// violation, nothing is written and the error reports both start times.
pub fn write_to_file(file: &mut Vec<u8>, entries: &Vec<SolanaPriceEntry>) -> (r: Result<
    (),
    TimelineError,
>)
    ensures
        r is Err <==> ordering_violation(old(file)@, entries@),
        r is Err ==> final(file)@ == old(file)@,
        r matches Err(e) ==> {
            &&& e.file_start == spec_u32_from_le_bytes(old(file)@.take(4))
            &&& e.batch_start == entries@[0].time
            &&& e.file_start_utc@ == utc_of(e.file_start)
            &&& e.batch_start_utc@ == utc_of(e.batch_start)
        },
        r is Ok ==> final(file)@ == old(file)@ + encoding_of(entries@),
{
    if file.len() >= 8 && entries.len() > 0 {
        let file_start = u32_from_le_bytes(slice_subrange(file.as_slice(), 0, 4));
        proof {
            assert(file@.subrange(0, 4) =~= file@.take(4));
        }
        let batch_start = entries[0].time;
        if file_start > batch_start {
            return Err(TimelineError {
                file_start,
                batch_start,
                file_start_utc: utc_string(file_start),
                batch_start_utc: utc_string(batch_start),
            });
        }
    }
    let mut image = encode_entries(entries);
    file.append(&mut image);
    Ok(())
}

} // verus!
