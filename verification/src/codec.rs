//! The binary record format: a flat sequence of 8-byte records, each a
//! little-endian `u32` timestamp followed by a little-endian `u32` price,
//! with no header and no length prefix.

use vstd::prelude::*;
use vstd::bytes::{spec_u32_to_le_bytes, spec_u32_from_le_bytes, u32_to_le_bytes, u32_from_le_bytes};
use vstd::slice::slice_subrange;
use crate::entry::SolanaPriceEntry;

verus! {

/// The eight bytes of one stored record.
pub open spec fn entry_bytes(e: SolanaPriceEntry) -> Seq<u8> {
    spec_u32_to_le_bytes(e.time) + spec_u32_to_le_bytes(e.close_price)
}

/// The byte image of a whole batch, records laid end to end in order.
pub open spec fn encoding_of(entries: Seq<SolanaPriceEntry>) -> Seq<u8>
    decreases entries.len(),
{
    if entries.len() == 0 {
        Seq::empty()
    } else {
        entry_bytes(entries[0]) + encoding_of(entries.skip(1))
    }
}

/// The pairs read back from a byte image, eight bytes at a time; a trailing
/// remainder shorter than eight bytes is dropped.
pub open spec fn decoded_of(data: Seq<u8>) -> Seq<(u32, u32)>
    decreases data.len(),
{
    if data.len() < 8 {
        Seq::empty()
    } else {
        seq![
            (spec_u32_from_le_bytes(data.take(4)), spec_u32_from_le_bytes(data.subrange(4, 8))),
        ] + decoded_of(data.skip(8))
    }
}

pub proof fn lemma_encoding_len(entries: Seq<SolanaPriceEntry>)
    ensures
        encoding_of(entries).len() == 8 * entries.len(),
    decreases entries.len(),
{
    vstd::bytes::lemma_auto_spec_u32_to_from_le_bytes();
    if entries.len() > 0 {
        lemma_encoding_len(entries.skip(1));
    }
}

/// Appending one entry to a batch appends its eight bytes to the image.
pub proof fn lemma_encoding_push(entries: Seq<SolanaPriceEntry>, e: SolanaPriceEntry)
    ensures
        encoding_of(entries.push(e)) == encoding_of(entries) + entry_bytes(e),
    decreases entries.len(),
{
    if entries.len() == 0 {
        assert(entries.push(e).skip(1) =~= Seq::<SolanaPriceEntry>::empty());
        assert(entries.push(e)[0] == e);
        assert(encoding_of(entries.push(e)) == entry_bytes(e) + encoding_of(
            Seq::<SolanaPriceEntry>::empty(),
        ));
        assert(entry_bytes(e) + Seq::<u8>::empty() =~= entry_bytes(e));
        assert(encoding_of(entries) + entry_bytes(e) =~= entry_bytes(e));
    } else {
        lemma_encoding_push(entries.skip(1), e);
        assert(entries.push(e).skip(1) =~= entries.skip(1).push(e));
        assert(entries.push(e)[0] == entries[0]);
        assert(encoding_of(entries.push(e)) == entry_bytes(entries[0]) + (encoding_of(
            entries.skip(1),
        ) + entry_bytes(e)));
        assert(entry_bytes(entries[0]) + (encoding_of(entries.skip(1)) + entry_bytes(e)) =~= (
        entry_bytes(entries[0]) + encoding_of(entries.skip(1))) + entry_bytes(e));
    }
}

/// The round-trip law: reading back the byte image of any batch yields
/// exactly the batch's `(timestamp, price)` pairs, in order.
pub proof fn lemma_round_trip(entries: Seq<SolanaPriceEntry>)
    ensures
        decoded_of(encoding_of(entries)) == entries.map_values(
            |e: SolanaPriceEntry| (e.time, e.close_price),
        ),
    decreases entries.len(),
{
    vstd::bytes::lemma_auto_spec_u32_to_from_le_bytes();
    let pairs = |e: SolanaPriceEntry| (e.time, e.close_price);
    if entries.len() == 0 {
        assert(decoded_of(encoding_of(entries)) =~= entries.map_values(pairs));
    } else {
        let e = entries[0];
        let head = entry_bytes(e);
        let rest = encoding_of(entries.skip(1));
        let data = encoding_of(entries);
        lemma_encoding_len(entries.skip(1));
        assert(head.len() == 8);
        assert(data == head + rest);
        assert(data.take(4) =~= spec_u32_to_le_bytes(e.time));
        assert(data.subrange(4, 8) =~= spec_u32_to_le_bytes(e.close_price));
        assert(data.skip(8) =~= rest);
        lemma_round_trip(entries.skip(1));
        assert(entries.skip(1).map_values(pairs) =~= entries.map_values(pairs).skip(1));
        assert(decoded_of(data) =~= entries.map_values(pairs));
    }
}

/// Reading a byte image made of whole records followed by anything decodes
/// the records first, then the remainder.
pub proof fn lemma_decoded_append(a: Seq<u8>, b: Seq<u8>)
    requires
        a.len() % 8 == 0,
    ensures
        decoded_of(a + b) == decoded_of(a) + decoded_of(b),
    decreases a.len(),
{
    if a.len() == 0 {
        assert(a + b =~= b);
        assert(decoded_of(a) + decoded_of(b) =~= decoded_of(b));
    } else {
        assert(a.len() >= 8);
        let ab = a + b;
        assert(ab.take(4) =~= a.take(4));
        assert(ab.subrange(4, 8) =~= a.subrange(4, 8));
        assert(ab.skip(8) =~= a.skip(8) + b);
        assert(a.skip(8).len() % 8 == 0);
        lemma_decoded_append(a.skip(8), b);
        assert(seq![(spec_u32_from_le_bytes(a.take(4)), spec_u32_from_le_bytes(a.subrange(4, 8)))]
            + (decoded_of(a.skip(8)) + decoded_of(b)) =~= decoded_of(a) + decoded_of(b));
    }
}

/// The round-trip law through the appender and the sample reader: after a
/// batch's image is appended to a destination holding whole records, reading
/// the destination back yields what it held before followed by exactly the
/// batch's `(timestamp, price)` pairs.
pub proof fn lemma_append_read_back(file: Seq<u8>, entries: Seq<SolanaPriceEntry>)
    requires
        file.len() % 8 == 0,
    ensures
        decoded_of(file + encoding_of(entries)) == decoded_of(file) + entries.map_values(
            |e: SolanaPriceEntry| (e.time, e.close_price),
        ),
{
    lemma_decoded_append(file, encoding_of(entries));
    lemma_round_trip(entries);
}

/// Serializes a batch of entries into its byte image.
pub fn encode_entries(entries: &Vec<SolanaPriceEntry>) -> (out: Vec<u8>)
    ensures
        out@ == encoding_of(entries@),
{
    let mut out: Vec<u8> = Vec::new();
    let mut i: usize = 0;
    while i < entries.len()
        invariant
            0 <= i <= entries@.len(),
            out@ == encoding_of(entries@.take(i as int)),
        decreases entries@.len() - i,
    {
        let e = entries[i];
        let mut time_bytes = u32_to_le_bytes(e.time);
        let mut price_bytes = u32_to_le_bytes(e.close_price);
        out.append(&mut time_bytes);
        out.append(&mut price_bytes);
        proof {
            lemma_encoding_push(entries@.take(i as int), e);
            assert(entries@.take(i as int).push(e) =~= entries@.take(i + 1));
            assert(out@ =~= encoding_of(entries@.take(i + 1)));
        }
        i = i + 1;
    }
    proof {
        assert(entries@.take(entries@.len() as int) =~= entries@);
    }
    out
}

/// Reads back every whole 8-byte record of a byte image, ignoring any
/// trailing incomplete record.
pub fn read_binary_file(data: &[u8]) -> (out: Vec<(u32, u32)>)
    ensures
        out@ == decoded_of(data@),
{
    let n: usize = data.len();
    let mut out: Vec<(u32, u32)> = Vec::new();
    let mut i: usize = 0;
    proof {
        assert(data@.skip(0) =~= data@);
        assert(Seq::<(u32, u32)>::empty() + decoded_of(data@) =~= decoded_of(data@));
    }
    while i < n && n - i >= 8
        invariant
            0 <= i <= n,
            n == data@.len(),
            decoded_of(data@) == out@ + decoded_of(data@.skip(i as int)),
        decreases n - i,
    {
        let time = u32_from_le_bytes(slice_subrange(data, i, i + 4));
        let price = u32_from_le_bytes(slice_subrange(data, i + 4, i + 8));
        proof {
            let tail = data@.skip(i as int);
            assert(tail.take(4) =~= data@.subrange(i as int, i + 4));
            assert(tail.subrange(4, 8) =~= data@.subrange(i + 4, i + 8));
            assert(tail.skip(8) =~= data@.skip(i + 8));
            assert(decoded_of(tail) == seq![(time, price)] + decoded_of(data@.skip(i + 8)));
            assert(out@.push((time, price)) + decoded_of(data@.skip(i + 8)) =~= out@ + decoded_of(
                tail,
            ));
        }
        out.push((time, price));
        i = i + 8;
    }
    proof {
        assert(decoded_of(data@.skip(i as int)) =~= Seq::<(u32, u32)>::empty());
        assert(out@ + decoded_of(data@.skip(i as int)) =~= out@);
    }
    out
}

} // verus!
