//! What writing and reading the record of a block mean, over the entries of
//! the flat table.
//!
//! Writing puts nine values: the two keys of the epoch schedule, the six
//! fields under the block's height, and last the height itself. Reading
//! finds the height and the epoch schedule, then walks in order the keys of
//! the table that begin with the prefix of that height. Each of them has to
//! name one of the six fields and its value has to decode; the first that
//! does not ends the read with an error. All six fields have to be found.

use crate::codec::{
    decode_bytes_spec, decode_time_spec, decode_u64_list_spec, decode_u64_spec, encode_bytes_spec,
    encode_time_spec, encode_u64_list_spec, encode_u64_spec, CodingError, DateTimeUtc,
};
use crate::layout::{
    block_key, field_of_key, height_key, in_scan_range, next_epoch_min_start_height_key,
    next_epoch_min_start_time_key, BlockField,
};
use crate::table::{to_map, EntryView};
use crate::types::{BlockStateView, ErrorView};
use vstd::prelude::*;

verus! {

/// The raw values of the block fields met so far.
pub type FieldMap = Map<BlockField, Seq<u8>>;

/// The error that decoding `v` as the field `f` gives, if it gives one.
pub open spec fn field_check(f: BlockField, v: Seq<u8>) -> Option<CodingError> {
    match f {
        BlockField::Epoch => match decode_u64_spec(v) {
            Ok(_) => None,
            Err(e) => Some(e),
        },
        BlockField::PredEpochs => match decode_u64_list_spec(v) {
            Ok(_) => None,
            Err(e) => Some(e),
        },
        _ => match decode_bytes_spec(v) {
            Ok(_) => None,
            Err(e) => Some(e),
        },
    }
}

/// The bytes stored for the field `f` of the record `s`.
pub open spec fn field_encoding(s: BlockStateView, f: BlockField) -> Seq<u8> {
    match f {
        BlockField::Root => encode_bytes_spec(s.root),
        BlockField::Store => encode_bytes_spec(s.store),
        BlockField::Hash => encode_bytes_spec(s.hash),
        BlockField::Epoch => encode_u64_spec(s.epoch),
        BlockField::PredEpochs => encode_u64_list_spec(s.pred_epochs),
        BlockField::AddressGen => encode_bytes_spec(s.address_gen),
    }
}

/// What visiting the entry `(k, v)` does to the fields met so far.
pub open spec fn absorb(acc: FieldMap, k: Seq<char>, v: Seq<u8>) -> Result<FieldMap, ErrorView> {
    match field_of_key(k) {
        None => Err(ErrorView::UnknownKey { key: k }),
        Some(f) => match field_check(f, v) {
            Some(e) => Err(ErrorView::CodingError(e)),
            None => Ok(acc.insert(f, v)),
        },
    }
}

/// The walk over the entries `es` in order: entries whose key does not begin
/// with the prefix of the height `h` are passed over, the others are
/// absorbed one by one.
pub open spec fn scan(es: Seq<EntryView>, h: u64, acc: FieldMap) -> Result<FieldMap, ErrorView>
    decreases es.len(),
{
    if es.len() == 0 {
        Ok(acc)
    } else if !in_scan_range(es[0].0, h) {
        scan(es.drop_first(), h, acc)
    } else {
        match absorb(acc, es[0].0, es[0].1) {
            Err(e) => Err(e),
            Ok(next) => scan(es.drop_first(), h, next),
        }
    }
}

/// Whether all six fields were met.
pub open spec fn complete(fields: FieldMap) -> bool {
    &&& fields.contains_key(BlockField::Root)
    &&& fields.contains_key(BlockField::Store)
    &&& fields.contains_key(BlockField::Hash)
    &&& fields.contains_key(BlockField::Epoch)
    &&& fields.contains_key(BlockField::PredEpochs)
    &&& fields.contains_key(BlockField::AddressGen)
}

/// The record made of the decoded fields, the height and the epoch
/// schedule.
pub open spec fn assemble(
    fields: FieldMap,
    height: u64,
    next_epoch_min_start_height: u64,
    next_epoch_min_start_time: DateTimeUtc,
) -> BlockStateView {
    BlockStateView {
        root: decode_bytes_spec(fields[BlockField::Root])->Ok_0,
        store: decode_bytes_spec(fields[BlockField::Store])->Ok_0,
        hash: decode_bytes_spec(fields[BlockField::Hash])->Ok_0,
        height,
        epoch: decode_u64_spec(fields[BlockField::Epoch])->Ok_0,
        pred_epochs: decode_u64_list_spec(fields[BlockField::PredEpochs])->Ok_0,
        next_epoch_min_start_height,
        next_epoch_min_start_time,
        address_gen: decode_bytes_spec(fields[BlockField::AddressGen])->Ok_0,
    }
}

/// The message of the error for a record with fields missing.
pub open spec fn missing_data_message() -> Seq<char> {
    "Essential data couldn't be read from the DB"@
}

/// What reading the fields of the block at `height` from the entries `es`
/// gives, once the height and the epoch schedule are known.
pub open spec fn read_fields_spec(
    es: Seq<EntryView>,
    height: u64,
    next_epoch_min_start_height: u64,
    next_epoch_min_start_time: DateTimeUtc,
) -> Result<Option<BlockStateView>, ErrorView> {
    match scan(es, height, Map::empty()) {
        Err(e) => Err(e),
        Ok(fields) => if complete(fields) {
            Ok(
                Some(
                    assemble(
                        fields,
                        height,
                        next_epoch_min_start_height,
                        next_epoch_min_start_time,
                    ),
                ),
            )
        } else {
            Err(ErrorView::Temporary { error: missing_data_message() })
        },
    }
}

/// What reading the last block from a table with the entries `es` gives.
///
/// No height key: there is no block, and that is no error. With the height
/// key there, a key of the epoch schedule that is missing is missing data,
/// and a height or a schedule value that does not decode is an error.
pub open spec fn read_last_block_spec(es: Seq<EntryView>) -> Result<
    Option<BlockStateView>,
    ErrorView,
> {
    let m = to_map(es);
    if !m.contains_key(height_key()) {
        Ok(None)
    } else {
        match decode_u64_spec(m[height_key()]) {
            Err(e) => Err(ErrorView::CodingError(e)),
            Ok(height) => if !m.contains_key(next_epoch_min_start_height_key()) {
                Err(ErrorView::Temporary { error: missing_data_message() })
            } else {
                match decode_u64_spec(m[next_epoch_min_start_height_key()]) {
                    Err(e) => Err(ErrorView::CodingError(e)),
                    Ok(start_height) => if !m.contains_key(next_epoch_min_start_time_key()) {
                        Err(ErrorView::Temporary { error: missing_data_message() })
                    } else {
                        match decode_time_spec(m[next_epoch_min_start_time_key()]) {
                            Err(e) => Err(ErrorView::CodingError(e)),
                            Ok(start_time) => read_fields_spec(
                                es,
                                height,
                                start_height,
                                start_time,
                            ),
                        }
                    },
                }
            },
        }
    }
}

/// The table after the record `s` is written to the table `m`.
pub open spec fn write_block_spec(m: Map<Seq<char>, Seq<u8>>, s: BlockStateView) -> Map<
    Seq<char>,
    Seq<u8>,
> {
    m.insert(
        next_epoch_min_start_height_key(),
        encode_u64_spec(s.next_epoch_min_start_height),
    ).insert(next_epoch_min_start_time_key(), encode_time_spec(s.next_epoch_min_start_time)).insert(
        block_key(s.height, BlockField::Root),
        field_encoding(s, BlockField::Root),
    ).insert(block_key(s.height, BlockField::Store), field_encoding(s, BlockField::Store)).insert(
        block_key(s.height, BlockField::Hash),
        field_encoding(s, BlockField::Hash),
    ).insert(block_key(s.height, BlockField::Epoch), field_encoding(s, BlockField::Epoch)).insert(
        block_key(s.height, BlockField::PredEpochs),
        field_encoding(s, BlockField::PredEpochs),
    ).insert(
        block_key(s.height, BlockField::AddressGen),
        field_encoding(s, BlockField::AddressGen),
    ).insert(height_key(), encode_u64_spec(s.height))
}

/// Entries of other heights at the start of the walk change nothing.
pub proof fn lemma_scan_skip(es: Seq<EntryView>, h: u64, acc: FieldMap, n: int)
    requires
        0 <= n <= es.len(),
        forall|j: int| 0 <= j < n ==> !in_scan_range(#[trigger] es[j].0, h),
    ensures
        scan(es, h, acc) == scan(es.skip(n), h, acc),
    decreases n,
{
    if n == 0 {
        assert(es.skip(0) =~= es);
    } else {
        let rest = es.drop_first();
        assert(!in_scan_range(es[0].0, h));
        assert forall|j: int| 0 <= j < n - 1 implies !in_scan_range(#[trigger] rest[j].0, h) by {
            assert(rest[j] == es[j + 1]);
        }
        lemma_scan_skip(rest, h, acc, n - 1);
        assert(rest.skip(n - 1) =~= es.skip(n));
    }
}

/// A walk that meets no entry of the height ends with what it began with.
pub proof fn lemma_scan_outside(es: Seq<EntryView>, h: u64, acc: FieldMap)
    requires
        forall|j: int| 0 <= j < es.len() ==> !in_scan_range(#[trigger] es[j].0, h),
    ensures
        scan(es, h, acc) == Ok::<FieldMap, ErrorView>(acc),
{
    lemma_scan_skip(es, h, acc, es.len() as int);
    assert(es.skip(es.len() as int) =~= Seq::<EntryView>::empty());
}

/// One step of the walk, from position `i` of `es`.
pub proof fn lemma_scan_step(es: Seq<EntryView>, h: u64, acc: FieldMap, i: int)
    requires
        0 <= i < es.len(),
    ensures
        scan(es.skip(i), h, acc) == if !in_scan_range(es[i].0, h) {
            scan(es.skip(i + 1), h, acc)
        } else {
            match absorb(acc, es[i].0, es[i].1) {
                Err(e) => Err(e),
                Ok(next) => scan(es.skip(i + 1), h, next),
            }
        },
{
    assert(es.skip(i)[0] == es[i]);
    assert(es.skip(i).drop_first() =~= es.skip(i + 1));
}

} // verus!
