//! What holds of the backend across calls, proved from the contracts of its
//! operations.

use crate::codec::{
    lemma_bytes_round_trip, lemma_time_round_trip, lemma_u64_list_round_trip,
    lemma_u64_round_trip,
};
use crate::key::{Key, KEY_SEGMENT_SEPARATOR};
use crate::layout::{
    block_key, field_of_key, field_of_suffix, field_suffix, height_key, height_prefix,
    in_scan_range, lemma_field_of_block_key, next_epoch_min_start_height_key,
    next_epoch_min_start_time_key, subspace_key, subspace_prefix, BlockField,
};
use crate::mockdb::{
    delete_delta, meter, metered, select_prefixed, upsert_delta, MockDB,
};
use crate::record::{
    absorb, assemble, complete, field_check, field_encoding, missing_data_message,
    read_fields_spec, read_last_block_spec, scan, write_block_spec, FieldMap,
};
use crate::table::{
    has_key, lemma_map_holds_entry, lemma_remove_at, lemma_sorted_listing_unique, position_of,
    sorted, to_map, EntryView,
};
use crate::text::{
    decimal, is_digit, lemma_decimal_digits, lemma_decimal_injective,
    lemma_first_index_is, lemma_lex_common_prefix, lemma_lex_irreflexive, lemma_lex_transitive,
    lex_lt,
};
use crate::types::{BlockStateView, BlockStateWrite, ErrorView};
use vstd::prelude::*;

verus! {

/// Whether the byte strings and the list of the record `s` have lengths that
/// a machine can hold.
pub open spec fn record_fits(s: BlockStateView) -> bool {
    &&& s.root.len() <= u64::MAX
    &&& s.store.len() <= u64::MAX
    &&& s.hash.len() <= u64::MAX
    &&& s.pred_epochs.len() <= u64::MAX
    &&& s.address_gen.len() <= u64::MAX
}

/// Each stored field of a record decodes.
pub proof fn lemma_field_round_trip(s: BlockStateView, f: BlockField)
    requires
        record_fits(s),
    ensures
        field_check(f, field_encoding(s, f)) is None,
{
    lemma_bytes_round_trip(s.root);
    lemma_bytes_round_trip(s.store);
    lemma_bytes_round_trip(s.hash);
    lemma_bytes_round_trip(s.address_gen);
    lemma_u64_round_trip(s.epoch);
    lemma_u64_list_round_trip(s.pred_epochs);
}

/// The three keys that stand outside any height begin with a letter.
proof fn lemma_plain_keys()
    ensures
        height_key().len() == 6,
        height_key()[0] == 'h',
        next_epoch_min_start_height_key().len() == 27,
        next_epoch_min_start_height_key()[0] == 'n',
        next_epoch_min_start_time_key().len() == 25,
        next_epoch_min_start_time_key()[0] == 'n',
{
    reveal_strlit("height");
    reveal_strlit("next_epoch_min_start_height");
    reveal_strlit("next_epoch_min_start_time");
}

/// The prefix of a height and the key of a block field begin with a digit.
proof fn lemma_height_keys_start_with_digit(h: u64, f: BlockField)
    ensures
        height_prefix(h).len() > 1,
        is_digit(height_prefix(h)[0]),
        block_key(h, f).len() > 1,
        is_digit(block_key(h, f)[0]),
{
    lemma_decimal_digits(h as nat);
    assert(height_prefix(h)[0] == decimal(h as nat)[0]);
    assert(block_key(h, f)[0] == decimal(h as nat)[0]);
}

/// A key that begins with a character past the digits begins with the
/// prefix of no height.
proof fn lemma_letter_key_outside(k: Seq<char>, h: u64)
    requires
        k.len() > 0,
        k[0] > '9',
    ensures
        !in_scan_range(k, h),
{
    let p = height_prefix(h);
    lemma_height_keys_start_with_digit(h, BlockField::Root);
    if p.is_prefix_of(k) {
        assert(k.subrange(0, p.len() as int)[0] == k[0]);
    }
}

/// The keys of the block at a height begin with the prefix of that height.
pub proof fn lemma_block_key_in_range(h: u64, f: BlockField)
    ensures
        in_scan_range(block_key(h, f), h),
{
    let p = height_prefix(h);
    assert((p + field_suffix(f)).subrange(0, p.len() as int) =~= p);
}

/// The key of a block field begins with the prefix of its own height only.
pub proof fn lemma_block_key_under_prefix(h: u64, h2: u64, f: BlockField)
    requires
        in_scan_range(block_key(h2, f), h),
    ensures
        h2 == h,
{
    let k = block_key(h2, f);
    let p = height_prefix(h);
    let d = decimal(h as nat);
    let d2 = decimal(h2 as nat);
    lemma_decimal_digits(h as nat);
    lemma_decimal_digits(h2 as nat);
    assert forall|j: int| 0 <= j < p.len() implies k[j] == p[j] by {
        assert(k.subrange(0, p.len() as int)[j] == k[j]);
    }
    assert(p[d.len() as int] == KEY_SEGMENT_SEPARATOR);
    assert(k[d2.len() as int] == KEY_SEGMENT_SEPARATOR);
    if d.len() < d2.len() {
        assert(k[d.len() as int] == d2[d.len() as int]);
        assert(false);
    }
    if d2.len() < d.len() {
        assert(p[d2.len() as int] == d[d2.len() as int]);
        assert(false);
    }
    assert forall|j: int| 0 <= j < d.len() implies d[j] == d2[j] by {
        assert(p[j] == d[j]);
        assert(k[j] == d2[j]);
    }
    assert(d =~= d2);
    lemma_decimal_injective(h as nat, h2 as nat);
}

/// A key under the prefix of a height that names a field is the key of that
/// field at that height.
pub proof fn lemma_field_key_under_prefix(k: Seq<char>, h: u64, f: BlockField)
    requires
        in_scan_range(k, h),
        field_of_key(k) == Some(f),
    ensures
        k == block_key(h, f),
{
    let p = height_prefix(h);
    let d = decimal(h as nat);
    lemma_decimal_digits(h as nat);
    assert forall|j: int| 0 <= j < p.len() implies k[j] == p[j] by {
        assert(k.subrange(0, p.len() as int)[j] == k[j]);
    }
    assert forall|j: int| 0 <= j < d.len() implies k[j] != KEY_SEGMENT_SEPARATOR by {
        assert(p[j] == d[j]);
    }
    assert(p[d.len() as int] == KEY_SEGMENT_SEPARATOR);
    lemma_first_index_is(k, KEY_SEGMENT_SEPARATOR, d.len() as int);
    let rest = k.skip(d.len() as int + 1);
    assert(field_of_suffix(rest) == Some(f));
    assert(rest == field_suffix(f));
    assert(k =~= p + rest);
}

/// Whether every entry of `es` under the prefix of the height of `s` holds a
/// field of `s`, encoded.
pub open spec fn holds_record_only(es: Seq<EntryView>, s: BlockStateView) -> bool {
    forall|i: int|
        0 <= i < es.len() && in_scan_range(#[trigger] es[i].0, s.height) ==> {
            &&& field_of_key(es[i].0) is Some
            &&& es[i].1 == field_encoding(s, field_of_key(es[i].0)->Some_0)
        }
}

/// A walk over entries that hold the record `s` only meets no error, keeps
/// what it began with, and collects every field that it passes.
pub proof fn lemma_scan_record(es: Seq<EntryView>, s: BlockStateView, acc: FieldMap)
    requires
        record_fits(s),
        holds_record_only(es, s),
        forall|f: BlockField| acc.contains_key(f) ==> acc[f] == field_encoding(s, f),
    ensures
        scan(es, s.height, acc) is Ok,
        forall|f: BlockField|
            acc.contains_key(f) ==> #[trigger] scan(es, s.height, acc)->Ok_0.contains_key(f),
        forall|i: int|
            0 <= i < es.len() && in_scan_range(#[trigger] es[i].0, s.height) ==> scan(
                es,
                s.height,
                acc,
            )->Ok_0.contains_key(field_of_key(es[i].0)->Some_0),
        forall|f: BlockField| #[trigger]
            scan(es, s.height, acc)->Ok_0.contains_key(f) ==> scan(es, s.height, acc)->Ok_0[f]
                == field_encoding(s, f),
    decreases es.len(),
{
    if es.len() > 0 {
        let rest = es.drop_first();
        assert forall|i: int| 0 <= i < rest.len() && in_scan_range(
            #[trigger] rest[i].0,
            s.height,
        ) implies {
            &&& field_of_key(rest[i].0) is Some
            &&& rest[i].1 == field_encoding(s, field_of_key(rest[i].0)->Some_0)
        } by {
            assert(rest[i] == es[i + 1]);
        }
        let next = if in_scan_range(es[0].0, s.height) {
            let f0 = field_of_key(es[0].0)->Some_0;
            lemma_field_round_trip(s, f0);
            acc.insert(f0, es[0].1)
        } else {
            acc
        };
        lemma_scan_record(rest, s, next);
        let r = scan(es, s.height, acc)->Ok_0;
        assert(scan(es, s.height, acc) == scan(rest, s.height, next));
        assert forall|i: int| 0 <= i < es.len() && in_scan_range(
            #[trigger] es[i].0,
            s.height,
        ) implies r.contains_key(field_of_key(es[i].0)->Some_0) by {
            if i > 0 {
                assert(rest[i - 1] == es[i]);
            }
        }
    }
}

/// A backend that was never written to holds no block: reading the last
/// block from an empty table gives `None`.
pub proof fn law_fresh_store_reads_none(db: MockDB)
    requires
        db.entries() == Seq::<EntryView>::empty(),
    ensures
        read_last_block_spec(db.entries()) == Ok::<Option<BlockStateView>, ErrorView>(None),
{
    assert(!has_key(db.entries(), height_key()));
}

/// Reading the last block gives `None` for a store without the height key
/// and for no other.
pub proof fn law_none_only_without_height(db: MockDB)
    ensures
        read_last_block_spec(db.entries()) == Ok::<Option<BlockStateView>, ErrorView>(None)
            <==> !db@.contains_key(height_key()),
{
}

/// Reading the last block right after writing one gives the record that was
/// written.
///
/// `before` is the backend when the record `s` is written and `after` is
/// the backend that the write leaves. The law asks that `before` holds no
/// key under the prefix of the height of `s` but keys of the block itself.
/// [`law_write_then_read_in_ledger_store`] shows that this is so of every
/// store that the operations of the backend reach from an empty one.
pub proof fn law_write_then_read(before: MockDB, after: MockDB, s: BlockStateWrite)
    requires
        before.wf(),
        after.wf(),
        after@ == write_block_spec(before@, s@),
        forall|k: Seq<char>| #[trigger]
            before@.contains_key(k) && in_scan_range(k, s.height.0) ==> field_of_key(k) is Some
                && k == block_key(s.height.0, field_of_key(k)->Some_0),
    ensures
        read_last_block_spec(after.entries()) == Ok::<Option<BlockStateView>, ErrorView>(
            Some(s@),
        ),
{
    let v = s@;
    let h = v.height;
    let es = after.entries();
    let m0 = before@;
    let m1 = after@;
    assert(record_fits(v)) by {
        assert(s.root.0.len() == v.root.len());
        assert(s.store.len() == v.store.len());
        assert(s.hash.0.len() == v.hash.len());
        assert(s.pred_epochs.first_block_heights.len() == v.pred_epochs.len());
        assert(s.address_gen.0.len() == v.address_gen.len());
    }
    lemma_plain_keys();
    let hk = height_key();
    let nh = next_epoch_min_start_height_key();
    let nt = next_epoch_min_start_time_key();
    // The nine keys are distinct.
    assert forall|f: BlockField|
        #![trigger block_key(h, f)]
        block_key(h, f) != hk && block_key(h, f) != nh && block_key(h, f) != nt && field_of_key(
            block_key(h, f),
        ) == Some(f) && in_scan_range(block_key(h, f), h) by {
        lemma_height_keys_start_with_digit(h, f);
        lemma_field_of_block_key(h, f);
        lemma_block_key_in_range(h, f);
    }
    lemma_letter_key_outside(hk, h);
    lemma_letter_key_outside(nh, h);
    lemma_letter_key_outside(nt, h);
    // The three plain values decode to what was written.
    lemma_u64_round_trip(v.height);
    lemma_u64_round_trip(v.next_epoch_min_start_height);
    lemma_time_round_trip(v.next_epoch_min_start_time);
    assert(m1.contains_key(hk) && m1[hk] == crate::codec::encode_u64_spec(v.height));
    assert(m1.contains_key(nh) && m1[nh] == crate::codec::encode_u64_spec(
        v.next_epoch_min_start_height,
    ));
    assert(m1.contains_key(nt) && m1[nt] == crate::codec::encode_time_spec(
        v.next_epoch_min_start_time,
    ));
    assert forall|f: BlockField|
        #![trigger block_key(h, f)]
        m1.contains_key(block_key(h, f)) && m1[block_key(h, f)] == field_encoding(v, f) by {
        let a = block_key(h, BlockField::Root);
        let b = block_key(h, BlockField::Store);
        let c = block_key(h, BlockField::Hash);
        let d = block_key(h, BlockField::Epoch);
        let e = block_key(h, BlockField::PredEpochs);
        let g = block_key(h, BlockField::AddressGen);
        assert(a != b && a != c && a != d && a != e && a != g);
        assert(b != c && b != d && b != e && b != g);
        assert(c != d && c != e && c != g);
        assert(d != e && d != g);
        assert(e != g);
    }
    // Every entry in the range holds a field of the record.
    assert(holds_record_only(es, v)) by {
        assert forall|i: int| 0 <= i < es.len() && in_scan_range(#[trigger] es[i].0, h) implies {
            &&& field_of_key(es[i].0) is Some
            &&& es[i].1 == field_encoding(v, field_of_key(es[i].0)->Some_0)
        } by {
            let k = es[i].0;
            lemma_map_holds_entry(es, i);
            assert(m1.contains_key(k) && m1[k] == es[i].1);
            if k != hk && k != nh && k != nt && !(exists|f: BlockField| k == block_key(h, f)) {
                assert(k != block_key(h, BlockField::Root));
                assert(k != block_key(h, BlockField::Store));
                assert(k != block_key(h, BlockField::Hash));
                assert(k != block_key(h, BlockField::Epoch));
                assert(k != block_key(h, BlockField::PredEpochs));
                assert(k != block_key(h, BlockField::AddressGen));
                assert(m0.contains_key(k));
                assert(k == block_key(h, field_of_key(k)->Some_0));
            }
            let f = choose|f: BlockField| k == block_key(h, f);
            assert(k == block_key(h, f));
        }
    }
    let empty: FieldMap = Map::empty();
    lemma_scan_record(es, v, empty);
    let r = scan(es, h, empty)->Ok_0;
    // All six fields are met.
    assert forall|f: BlockField| r.contains_key(f) && r[f] == field_encoding(v, f) by {
        let k = block_key(h, f);
        assert(has_key(es, k));
        let i = position_of(es, k);
        assert(in_scan_range(es[i].0, h));
        assert(field_of_key(es[i].0)->Some_0 == f);
    }
    assert(complete(r));
    lemma_bytes_round_trip(v.root);
    lemma_bytes_round_trip(v.store);
    lemma_bytes_round_trip(v.hash);
    lemma_bytes_round_trip(v.address_gen);
    lemma_u64_round_trip(v.epoch);
    lemma_u64_list_round_trip(v.pred_epochs);
    assert(r[BlockField::Root] == field_encoding(v, BlockField::Root));
    assert(r[BlockField::Store] == field_encoding(v, BlockField::Store));
    assert(r[BlockField::Hash] == field_encoding(v, BlockField::Hash));
    assert(r[BlockField::Epoch] == field_encoding(v, BlockField::Epoch));
    assert(r[BlockField::PredEpochs] == field_encoding(v, BlockField::PredEpochs));
    assert(r[BlockField::AddressGen] == field_encoding(v, BlockField::AddressGen));
    assert(assemble(r, h, v.next_epoch_min_start_height, v.next_epoch_min_start_time) == v);
    assert(read_fields_spec(es, h, v.next_epoch_min_start_height, v.next_epoch_min_start_time)
        == Ok::<Option<BlockStateView>, ErrorView>(Some(v)));
}

/// The entries of a backend are those of its map in the order of the keys:
/// two backends that hold the same map hold the same entries, and so read
/// and iterate alike.
pub proof fn law_entries_follow_map(a: MockDB, b: MockDB)
    requires
        a.wf(),
        b.wf(),
        a@ == b@,
    ensures
        a.entries() == b.entries(),
{
    lemma_sorted_listing_unique(a.entries(), b.entries());
}

/// The first write of a value to an absent key grows the storage by the
/// length of the value, and a second write to the same key changes it by the
/// difference of the two lengths.
pub proof fn law_upsert_delta(db: MockDB, key: Key, first: Seq<u8>, second: Seq<u8>)
    requires
        !db@.contains_key(subspace_key(key@)),
        first.len() <= i64::MAX,
        second.len() <= i64::MAX,
    ensures
        upsert_delta(db@, subspace_key(key@), first) == first.len(),
        upsert_delta(db@.insert(subspace_key(key@), first), subspace_key(key@), second)
            == second.len() - first.len(),
{
}

/// Deleting an absent key frees nothing; deleting a present key frees the
/// length of its value, and the key is absent afterwards.
pub proof fn law_delete_accounting(db: MockDB, key: Key)
    requires
        db@.contains_key(subspace_key(key@)) ==> db@[subspace_key(key@)].len() <= i64::MAX,
    ensures
        !db@.contains_key(subspace_key(key@)) ==> delete_delta(db@, subspace_key(key@)) == 0,
        db@.contains_key(subspace_key(key@)) ==> delete_delta(db@, subspace_key(key@))
            == db@[subspace_key(key@)].len(),
        !db@.remove(subspace_key(key@)).contains_key(subspace_key(key@)),
{
}

/// The walk fails at the first entry under the prefix that cannot be taken
/// in, with the error of that entry.
proof fn lemma_scan_first_failure(es: Seq<EntryView>, h: u64, acc: FieldMap, at: int)
    requires
        0 <= at < es.len(),
        in_scan_range(es[at].0, h),
        absorb(acc, es[at].0, es[at].1) is Err,
        forall|j: int|
            0 <= j < at && in_scan_range(#[trigger] es[j].0, h) ==> field_of_key(es[j].0) is Some
                && field_check(field_of_key(es[j].0)->Some_0, es[j].1) is None,
    ensures
        scan(es, h, acc) == Err::<FieldMap, ErrorView>(
            absorb(acc, es[at].0, es[at].1)->Err_0,
        ),
    decreases at,
{
    if at > 0 {
        let rest = es.drop_first();
        assert(rest[at - 1] == es[at]);
        assert forall|j: int| 0 <= j < at - 1 && in_scan_range(
            #[trigger] rest[j].0,
            h,
        ) implies field_of_key(rest[j].0) is Some && field_check(
            field_of_key(rest[j].0)->Some_0,
            rest[j].1,
        ) is None by {
            assert(rest[j] == es[j + 1]);
        }
        let next = if in_scan_range(es[0].0, h) {
            absorb(acc, es[0].0, es[0].1)->Ok_0
        } else {
            acc
        };
        lemma_scan_first_failure(rest, h, next, at - 1);
    }
}

/// Whether the height and the epoch schedule of the store `m` are there and
/// decode, with `h` as the height.
pub open spec fn last_height_is(m: Map<Seq<char>, Seq<u8>>, h: u64) -> bool {
    &&& m.contains_key(height_key())
    &&& crate::codec::decode_u64_spec(m[height_key()]) == Ok::<u64, crate::codec::CodingError>(h)
    &&& m.contains_key(next_epoch_min_start_height_key())
    &&& crate::codec::decode_u64_spec(m[next_epoch_min_start_height_key()]) is Ok
    &&& m.contains_key(next_epoch_min_start_time_key())
    &&& crate::codec::decode_time_spec(m[next_epoch_min_start_time_key()]) is Ok
}

/// Whether each entry of `es` under the prefix of `h` and before the
/// position `at` names a field and holds a value that decodes.
pub open spec fn taken_in_before(es: Seq<EntryView>, h: u64, at: int) -> bool {
    forall|j: int|
        0 <= j < at && j < es.len() && in_scan_range(#[trigger] es[j].0, h) ==> field_of_key(
            es[j].0,
        ) is Some && field_check(field_of_key(es[j].0)->Some_0, es[j].1) is None
}

/// A key under the last height that names none of the six fields makes
/// reading the last block fail with the error for an unknown key.
///
/// `at` is the position of such a key, the first entry under the height that
/// cannot be taken in. The error names that key.
pub proof fn law_unknown_key_rejected(db: MockDB, h: u64, at: int)
    requires
        db.wf(),
        last_height_is(db@, h),
        0 <= at < db.entries().len(),
        in_scan_range(db.entries()[at].0, h),
        field_of_key(db.entries()[at].0) is None,
        taken_in_before(db.entries(), h, at),
    ensures
        read_last_block_spec(db.entries()) == Err::<Option<BlockStateView>, ErrorView>(
            ErrorView::UnknownKey { key: db.entries()[at].0 },
        ),
{
    lemma_scan_first_failure(db.entries(), h, Map::empty(), at);
}

/// A field under the last height whose value does not decode makes reading
/// the last block fail with the error of the decoding.
///
/// `at` is the position of such a field, the first entry under the height
/// that cannot be taken in.
pub proof fn law_undecodable_field_rejected(db: MockDB, h: u64, at: int)
    requires
        db.wf(),
        last_height_is(db@, h),
        0 <= at < db.entries().len(),
        in_scan_range(db.entries()[at].0, h),
        field_of_key(db.entries()[at].0) is Some,
        field_check(field_of_key(db.entries()[at].0)->Some_0, db.entries()[at].1) is Some,
        taken_in_before(db.entries(), h, at),
    ensures
        read_last_block_spec(db.entries()) == Err::<Option<BlockStateView>, ErrorView>(
            ErrorView::CodingError(
                field_check(field_of_key(db.entries()[at].0)->Some_0, db.entries()[at].1)->Some_0,
            ),
        ),
{
    lemma_scan_first_failure(db.entries(), h, Map::empty(), at);
}

/// With the height key in the store, a height or a schedule value that does
/// not decode makes reading the last block fail with the error of the
/// decoding, and a schedule key that is missing makes it fail for missing
/// data. The height is looked at first, then the least height of the next
/// epoch, then its least time.
pub proof fn law_plain_values_checked(db: MockDB)
    requires
        db@.contains_key(height_key()),
    ensures
        match crate::codec::decode_u64_spec(db@[height_key()]) {
            Err(e) => read_last_block_spec(db.entries()) == Err::<
                Option<BlockStateView>,
                ErrorView,
            >(ErrorView::CodingError(e)),
            Ok(_) => if !db@.contains_key(next_epoch_min_start_height_key()) {
                read_last_block_spec(db.entries()) == Err::<Option<BlockStateView>, ErrorView>(
                    ErrorView::Temporary { error: missing_data_message() },
                )
            } else {
                match crate::codec::decode_u64_spec(db@[next_epoch_min_start_height_key()]) {
                    Err(e) => read_last_block_spec(db.entries()) == Err::<
                        Option<BlockStateView>,
                        ErrorView,
                    >(ErrorView::CodingError(e)),
                    Ok(_) => if !db@.contains_key(next_epoch_min_start_time_key()) {
                        read_last_block_spec(db.entries()) == Err::<
                            Option<BlockStateView>,
                            ErrorView,
                        >(ErrorView::Temporary { error: missing_data_message() })
                    } else {
                        crate::codec::decode_time_spec(
                            db@[next_epoch_min_start_time_key()],
                        ) matches Err(e) ==> read_last_block_spec(db.entries()) == Err::<
                            Option<BlockStateView>,
                            ErrorView,
                        >(ErrorView::CodingError(e))
                    },
                }
            },
        },
{
}

/// The walk collects the fields that it began with and those named by the
/// entries under the prefix, and no others.
proof fn lemma_scan_domain(es: Seq<EntryView>, h: u64, acc: FieldMap, f: BlockField)
    requires
        scan(es, h, acc) is Ok,
        scan(es, h, acc)->Ok_0.contains_key(f),
        !acc.contains_key(f),
    ensures
        exists|i: int|
            0 <= i < es.len() && in_scan_range(#[trigger] es[i].0, h) && field_of_key(es[i].0)
                == Some(f),
    decreases es.len(),
{
    if es.len() > 0 {
        let rest = es.drop_first();
        if in_scan_range(es[0].0, h) && field_of_key(es[0].0) == Some(f) {
            assert(in_scan_range(es[0].0, h));
        } else {
            let next = if in_scan_range(es[0].0, h) {
                absorb(acc, es[0].0, es[0].1)->Ok_0
            } else {
                acc
            };
            lemma_scan_domain(rest, h, next, f);
            let i = choose|i: int|
                0 <= i < rest.len() && in_scan_range(#[trigger] rest[i].0, h) && field_of_key(
                    rest[i].0,
                ) == Some(f);
            assert(es[i + 1] == rest[i]);
            assert(in_scan_range(es[i + 1].0, h));
        }
    }
}

/// Where one of the six fields of the last height is not in the store,
/// reading the last block fails for missing data, unless an entry under that
/// height cannot be taken in: then the error of that entry comes first.
pub proof fn law_missing_field_is_temporary(db: MockDB, h: u64, f: BlockField)
    requires
        db.wf(),
        last_height_is(db@, h),
        !db@.contains_key(block_key(h, f)),
        taken_in_before(db.entries(), h, db.entries().len() as int),
    ensures
        read_last_block_spec(db.entries()) == Err::<Option<BlockStateView>, ErrorView>(
            ErrorView::Temporary { error: missing_data_message() },
        ),
{
    let es = db.entries();
    let empty: FieldMap = Map::empty();
    lemma_scan_all_taken_in(es, h, empty);
    let r = scan(es, h, empty)->Ok_0;
    if r.contains_key(f) {
        lemma_scan_domain(es, h, empty, f);
        let i = choose|i: int|
            0 <= i < es.len() && in_scan_range(#[trigger] es[i].0, h) && field_of_key(es[i].0)
                == Some(f);
        lemma_field_key_under_prefix(es[i].0, h, f);
        lemma_map_holds_entry(es, i);
    }
}

/// A walk over entries that can all be taken in meets no error.
proof fn lemma_scan_all_taken_in(es: Seq<EntryView>, h: u64, acc: FieldMap)
    requires
        taken_in_before(es, h, es.len() as int),
    ensures
        scan(es, h, acc) is Ok,
    decreases es.len(),
{
    if es.len() > 0 {
        let rest = es.drop_first();
        assert forall|j: int| 0 <= j < rest.len() && in_scan_range(
            #[trigger] rest[j].0,
            h,
        ) implies field_of_key(rest[j].0) is Some && field_check(
            field_of_key(rest[j].0)->Some_0,
            rest[j].1,
        ) is None by {
            assert(rest[j] == es[j + 1]);
        }
        let next = if in_scan_range(es[0].0, h) {
            absorb(acc, es[0].0, es[0].1)->Ok_0
        } else {
            acc
        };
        lemma_scan_all_taken_in(rest, h, next);
    }
}

/// Whether `k` is a key that the backend writes: one of the three plain
/// keys, the key of a block field, or a key of application data.
pub open spec fn ledger_key(k: Seq<char>) -> bool {
    ||| k == height_key()
    ||| k == next_epoch_min_start_height_key()
    ||| k == next_epoch_min_start_time_key()
    ||| exists|h: u64, f: BlockField| k == #[trigger] block_key(h, f)
    ||| subspace_prefix().is_prefix_of(k)
}

/// Whether the store `m` holds no keys but those that the backend writes.
pub open spec fn holds_ledger_keys_only(m: Map<Seq<char>, Seq<u8>>) -> bool {
    forall|k: Seq<char>| #[trigger] m.contains_key(k) ==> ledger_key(k)
}

/// An empty store holds no keys but those that the backend writes, and
/// writing a block and writing or deleting application data keep it so:
/// every store that these operations reach from an empty one is such a
/// store.
pub proof fn law_ledger_keys_kept(db: MockDB, s: BlockStateWrite, key: Key, value: Seq<u8>)
    requires
        key.wf(),
    ensures
        holds_ledger_keys_only(Map::empty()),
        holds_ledger_keys_only(db@) ==> holds_ledger_keys_only(write_block_spec(db@, s@)),
        holds_ledger_keys_only(db@) ==> holds_ledger_keys_only(
            db@.insert(subspace_key(key@), value),
        ),
        holds_ledger_keys_only(db@) ==> holds_ledger_keys_only(db@.remove(subspace_key(key@))),
{
    let h = s@.height;
    let sk = subspace_key(key@);
    assert(sk.subrange(0, subspace_prefix().len() as int) =~= subspace_prefix());
    assert(ledger_key(sk));
    assert(ledger_key(block_key(h, BlockField::Root)));
    assert(ledger_key(block_key(h, BlockField::Store)));
    assert(ledger_key(block_key(h, BlockField::Hash)));
    assert(ledger_key(block_key(h, BlockField::Epoch)));
    assert(ledger_key(block_key(h, BlockField::PredEpochs)));
    assert(ledger_key(block_key(h, BlockField::AddressGen)));
    if holds_ledger_keys_only(db@) {
        let m = write_block_spec(db@, s@);
        assert forall|k: Seq<char>| #[trigger] m.contains_key(k) implies ledger_key(k) by {
            if !db@.contains_key(k) {
                assert(k == height_key() || k == next_epoch_min_start_height_key() || k
                    == next_epoch_min_start_time_key() || k == block_key(h, BlockField::Root)
                    || k == block_key(h, BlockField::Store) || k == block_key(
                    h,
                    BlockField::Hash,
                ) || k == block_key(h, BlockField::Epoch) || k == block_key(
                    h,
                    BlockField::PredEpochs,
                ) || k == block_key(h, BlockField::AddressGen));
            }
        }
        let m2 = db@.insert(sk, value);
        assert forall|k: Seq<char>| #[trigger] m2.contains_key(k) implies ledger_key(k) by {
            if k != sk {
                assert(db@.contains_key(k));
            }
        }
        let m3 = db@.remove(sk);
        assert forall|k: Seq<char>| #[trigger] m3.contains_key(k) implies ledger_key(k) by {
            assert(db@.contains_key(k));
        }
    }
}

/// In a store that holds no keys but those that the backend writes, the keys
/// under the prefix of a height are keys of the block at that height.
pub proof fn lemma_ledger_keys_under_prefix(m: Map<Seq<char>, Seq<u8>>, h: u64, k: Seq<char>)
    requires
        holds_ledger_keys_only(m),
        m.contains_key(k),
        in_scan_range(k, h),
    ensures
        field_of_key(k) is Some,
        k == block_key(h, field_of_key(k)->Some_0),
{
    lemma_plain_keys();
    reveal_strlit("subspace/");
    if k.len() > 0 && k[0] > '9' {
        lemma_letter_key_outside(k, h);
    }
    if subspace_prefix().is_prefix_of(k) {
        assert(k.subrange(0, subspace_prefix().len() as int)[0] == k[0]);
    }
    assert(ledger_key(k));
    let (h2, f) = choose|h2: u64, f: BlockField| k == #[trigger] block_key(h2, f);
    lemma_block_key_under_prefix(h, h2, f);
    lemma_field_of_block_key(h, f);
}

/// In every store that the operations of the backend reach from an empty
/// one, reading the last block right after writing one gives the record that
/// was written, at every height.
pub proof fn law_write_then_read_in_ledger_store(
    before: MockDB,
    after: MockDB,
    s: BlockStateWrite,
)
    requires
        before.wf(),
        after.wf(),
        holds_ledger_keys_only(before@),
        after@ == write_block_spec(before@, s@),
    ensures
        read_last_block_spec(after.entries()) == Ok::<Option<BlockStateView>, ErrorView>(
            Some(s@),
        ),
{
    assert forall|k: Seq<char>| #[trigger]
        before@.contains_key(k) && in_scan_range(k, s.height.0) implies field_of_key(k) is Some
        && k == block_key(s.height.0, field_of_key(k)->Some_0) by {
        lemma_ledger_keys_under_prefix(before@, s.height.0, k);
    }
    law_write_then_read(before, after, s);
}

/// The key of application data begins with the letter `s`.
proof fn lemma_subspace_key_start(key: Seq<Seq<char>>)
    ensures
        subspace_key(key).len() > 0,
        subspace_key(key)[0] == 's',
{
    reveal_strlit("subspace/");
    assert(subspace_key(key)[0] == subspace_prefix()[0]);
}

/// Different application keys are stored under different keys.
pub proof fn law_subspace_keys_distinct(k1: Key, k2: Key)
    requires
        k1.wf(),
        k2.wf(),
        k1@ != k2@,
    ensures
        subspace_key(k1@) != subspace_key(k2@),
{
    let n = subspace_prefix().len() as int;
    crate::key::law_key_string_injective(k1, k2);
    assert(subspace_key(k1@).skip(n) =~= crate::key::join_segments(k1@));
    assert(subspace_key(k2@).skip(n) =~= crate::key::join_segments(k2@));
}

/// The three kinds of keys never meet: the key of application data is no key
/// of a block field, is none of the three plain keys, and lies under the
/// prefix of no height.
pub proof fn law_namespaces_disjoint(key: Key, h: u64, f: BlockField)
    requires
        key.wf(),
    ensures
        subspace_key(key@) != block_key(h, f),
        subspace_key(key@) != height_key(),
        subspace_key(key@) != next_epoch_min_start_height_key(),
        subspace_key(key@) != next_epoch_min_start_time_key(),
        block_key(h, f) != height_key(),
        block_key(h, f) != next_epoch_min_start_height_key(),
        block_key(h, f) != next_epoch_min_start_time_key(),
        !in_scan_range(subspace_key(key@), h),
{
    lemma_subspace_key_start(key@);
    lemma_plain_keys();
    lemma_height_keys_start_with_digit(h, f);
    lemma_letter_key_outside(subspace_key(key@), h);
}

/// The key of a block field tells the height and the field: two such keys
/// are the same only for the same height and the same field.
pub proof fn law_block_keys_distinct(h1: u64, f1: BlockField, h2: u64, f2: BlockField)
    requires
        block_key(h1, f1) == block_key(h2, f2),
    ensures
        h1 == h2,
        f1 == f2,
{
    let k = block_key(h1, f1);
    let d1 = decimal(h1 as nat);
    let d2 = decimal(h2 as nat);
    lemma_decimal_digits(h1 as nat);
    lemma_decimal_digits(h2 as nat);
    lemma_field_of_block_key(h1, f1);
    lemma_field_of_block_key(h2, f2);
    assert forall|j: int| 0 <= j < d1.len() implies k[j] != KEY_SEGMENT_SEPARATOR by {
        assert(k[j] == d1[j]);
    }
    assert forall|j: int| 0 <= j < d2.len() implies k[j] != KEY_SEGMENT_SEPARATOR by {
        assert(block_key(h2, f2)[j] == d2[j]);
    }
    assert(block_key(h1, f1)[d1.len() as int] == KEY_SEGMENT_SEPARATOR);
    assert(block_key(h2, f2)[d2.len() as int] == KEY_SEGMENT_SEPARATOR);
    assert(d1.len() == d2.len());
    assert(d1 =~= k.take(d1.len() as int));
    assert(d2 =~= block_key(h2, f2).take(d2.len() as int));
    lemma_decimal_injective(h1 as nat, h2 as nat);
}

/// Writing a block leaves the stored fields of the blocks at other heights
/// as they are.
pub proof fn law_block_write_keeps_other_heights(
    db: MockDB,
    s: BlockStateWrite,
    h: u64,
    f: BlockField,
)
    requires
        h != s.height.0,
    ensures
        write_block_spec(db@, s@).contains_key(block_key(h, f)) == db@.contains_key(
            block_key(h, f),
        ),
        db@.contains_key(block_key(h, f)) ==> write_block_spec(db@, s@)[block_key(h, f)]
            == db@[block_key(h, f)],
{
    let k = block_key(h, f);
    let own = s@.height;
    lemma_plain_keys();
    lemma_height_keys_start_with_digit(h, f);
    if k == block_key(own, BlockField::Root) {
        law_block_keys_distinct(h, f, own, BlockField::Root);
    }
    if k == block_key(own, BlockField::Store) {
        law_block_keys_distinct(h, f, own, BlockField::Store);
    }
    if k == block_key(own, BlockField::Hash) {
        law_block_keys_distinct(h, f, own, BlockField::Hash);
    }
    if k == block_key(own, BlockField::Epoch) {
        law_block_keys_distinct(h, f, own, BlockField::Epoch);
    }
    if k == block_key(own, BlockField::PredEpochs) {
        law_block_keys_distinct(h, f, own, BlockField::PredEpochs);
    }
    if k == block_key(own, BlockField::AddressGen) {
        law_block_keys_distinct(h, f, own, BlockField::AddressGen);
    }
}

/// Writing a block leaves the application data as it is.
pub proof fn law_block_write_keeps_subspace(db: MockDB, s: BlockStateWrite, key: Key)
    requires
        key.wf(),
    ensures
        write_block_spec(db@, s@).contains_key(subspace_key(key@)) == db@.contains_key(
            subspace_key(key@),
        ),
        db@.contains_key(subspace_key(key@)) ==> write_block_spec(db@, s@)[subspace_key(key@)]
            == db@[subspace_key(key@)],
{
    let h = s@.height;
    law_namespaces_disjoint(key, h, BlockField::Root);
    law_namespaces_disjoint(key, h, BlockField::Store);
    law_namespaces_disjoint(key, h, BlockField::Hash);
    law_namespaces_disjoint(key, h, BlockField::Epoch);
    law_namespaces_disjoint(key, h, BlockField::PredEpochs);
    law_namespaces_disjoint(key, h, BlockField::AddressGen);
}

/// Whether two tables hold the same under every key that begins with the
/// prefix of `h`.
pub open spec fn agree_in_range(
    a: Map<Seq<char>, Seq<u8>>,
    b: Map<Seq<char>, Seq<u8>>,
    h: u64,
) -> bool {
    forall|k: Seq<char>|
        in_scan_range(k, h) ==> (#[trigger] a.contains_key(k) == b.contains_key(k)) && (
        a.contains_key(k) ==> a[k] == b[k])
}

/// The walk for a height sees the entries under the prefix of that height
/// only: over two sorted lists that hold the same there it gives the same.
pub proof fn lemma_scan_sees_range_only(
    a: Seq<EntryView>,
    b: Seq<EntryView>,
    h: u64,
    acc: FieldMap,
)
    requires
        sorted(a),
        sorted(b),
        agree_in_range(to_map(a), to_map(b), h),
    ensures
        scan(a, h, acc) == scan(b, h, acc),
    decreases a.len() + b.len(),
{
    if a.len() > 0 && !in_scan_range(a[0].0, h) {
        lemma_remove_at(a, 0);
        assert(a.remove(0) =~= a.drop_first());
        assert(agree_in_range(to_map(a.drop_first()), to_map(b), h)) by {
            assert forall|k: Seq<char>| in_scan_range(k, h) implies (#[trigger] to_map(
                a.drop_first(),
            ).contains_key(k) == to_map(b).contains_key(k)) && (to_map(
                a.drop_first(),
            ).contains_key(k) ==> to_map(a.drop_first())[k] == to_map(b)[k]) by {
                assert(to_map(a).contains_key(k) == to_map(b).contains_key(k));
            }
        }
        lemma_scan_sees_range_only(a.drop_first(), b, h, acc);
    } else if b.len() > 0 && !in_scan_range(b[0].0, h) {
        lemma_remove_at(b, 0);
        assert(b.remove(0) =~= b.drop_first());
        assert(agree_in_range(to_map(a), to_map(b.drop_first()), h)) by {
            assert forall|k: Seq<char>| in_scan_range(k, h) implies (#[trigger] to_map(
                a,
            ).contains_key(k) == to_map(b.drop_first()).contains_key(k)) && (to_map(
                a,
            ).contains_key(k) ==> to_map(a)[k] == to_map(b.drop_first())[k]) by {
                assert(to_map(a).contains_key(k) == to_map(b).contains_key(k));
            }
        }
        lemma_scan_sees_range_only(a, b.drop_first(), h, acc);
    } else if a.len() == 0 || b.len() == 0 {
        if a.len() > 0 {
            lemma_map_holds_entry(a, 0);
            assert(to_map(a).contains_key(a[0].0) == to_map(b).contains_key(a[0].0));
            assert(has_key(b, a[0].0));
        }
        if b.len() > 0 {
            lemma_map_holds_entry(b, 0);
            assert(to_map(a).contains_key(b[0].0) == to_map(b).contains_key(b[0].0));
            assert(has_key(a, b[0].0));
        }
    } else {
        // Both lists begin with an entry in the range: it is the same entry.
        let ka = a[0].0;
        let kb = b[0].0;
        lemma_map_holds_entry(a, 0);
        lemma_map_holds_entry(b, 0);
        assert(to_map(a).contains_key(ka) == to_map(b).contains_key(ka));
        assert(to_map(a).contains_key(kb) == to_map(b).contains_key(kb));
        assert(has_key(b, ka));
        assert(has_key(a, kb));
        let p = position_of(b, ka);
        let q = position_of(a, kb);
        if p > 0 && q > 0 {
            lemma_lex_transitive(ka, a[q].0, b[p].0);
            lemma_lex_irreflexive(ka);
        }
        if p > 0 && q == 0 {
            lemma_lex_irreflexive(ka);
        }
        if p == 0 && q > 0 {
            lemma_lex_irreflexive(kb);
        }
        assert(ka == kb);
        assert(a[0].1 == b[0].1);
        lemma_remove_at(a, 0);
        lemma_remove_at(b, 0);
        assert(a.remove(0) =~= a.drop_first());
        assert(b.remove(0) =~= b.drop_first());
        assert(agree_in_range(to_map(a.drop_first()), to_map(b.drop_first()), h)) by {
            assert forall|k: Seq<char>| in_scan_range(k, h) implies (#[trigger] to_map(
                a.drop_first(),
            ).contains_key(k) == to_map(b.drop_first()).contains_key(k)) && (to_map(
                a.drop_first(),
            ).contains_key(k) ==> to_map(a.drop_first())[k] == to_map(b.drop_first())[k]) by {
                assert(to_map(a).contains_key(k) == to_map(b).contains_key(k));
            }
        }
        match absorb(acc, ka, a[0].1) {
            Ok(next) => {
                lemma_scan_sees_range_only(a.drop_first(), b.drop_first(), h, next);
            },
            Err(_) => {},
        }
    }
}

/// Writing or deleting application data does not change what reading the
/// last block gives.
///
/// `before` and `after` are the backend before and after the operation on
/// the application key `key`; they hold the same under every other key.
pub proof fn law_subspace_write_keeps_block(before: MockDB, after: MockDB, key: Key)
    requires
        before.wf(),
        after.wf(),
        key.wf(),
        forall|k: Seq<char>|
            k != subspace_key(key@) ==> (#[trigger] after@.contains_key(k)
                == before@.contains_key(k)) && (before@.contains_key(k) ==> after@[k]
                == before@[k]),
    ensures
        read_last_block_spec(after.entries()) == read_last_block_spec(before.entries()),
{
    let sk = subspace_key(key@);
    let m0 = before@;
    let m1 = after@;
    law_namespaces_disjoint(key, 0, BlockField::Root);
    let hk = height_key();
    let nh = next_epoch_min_start_height_key();
    let nt = next_epoch_min_start_time_key();
    assert(m1.contains_key(hk) == m0.contains_key(hk));
    assert(m1.contains_key(nh) == m0.contains_key(nh));
    assert(m1.contains_key(nt) == m0.contains_key(nt));
    if m0.contains_key(hk) {
        match crate::codec::decode_u64_spec(m0[hk]) {
            Ok(h) => {
                law_namespaces_disjoint(key, h, BlockField::Root);
                assert(agree_in_range(m0, m1, h)) by {
                    assert forall|k: Seq<char>| in_scan_range(k, h) implies (
                    #[trigger] m0.contains_key(k) == m1.contains_key(k)) && (m0.contains_key(k)
                        ==> m0[k] == m1[k]) by {
                        assert(k != sk);
                        assert(m1.contains_key(k) == m0.contains_key(k));
                    }
                }
                lemma_scan_sees_range_only(
                    before.entries(),
                    after.entries(),
                    h,
                    Map::empty(),
                );
            },
            Err(_) => {},
        }
    }
}

/// The entries selected by a prefix are those entries of the list whose key
/// begins with the prefix, and they keep the order of the list.
pub proof fn lemma_select_prefixed(es: Seq<EntryView>, p: Seq<char>)
    ensures
        forall|e: EntryView| #[trigger]
            select_prefixed(es, p).contains(e) <==> es.contains(e) && p.is_prefix_of(e.0),
        sorted(es) ==> sorted(select_prefixed(es, p)),
    decreases es.len(),
{
    if es.len() > 0 {
        let tail = es.drop_first();
        lemma_select_prefixed(tail, p);
        let rest = select_prefixed(tail, p);
        let out = select_prefixed(es, p);
        assert forall|e: EntryView| es.contains(e) <==> e == es[0] || tail.contains(e) by {
            if es.contains(e) {
                let i = choose|i: int| 0 <= i < es.len() && es[i] == e;
                if i > 0 {
                    assert(tail[i - 1] == e);
                }
            }
            if tail.contains(e) {
                let i = choose|i: int| 0 <= i < tail.len() && tail[i] == e;
                assert(es[i + 1] == e);
            }
            assert(es[0] == es[0]);
        }
        assert forall|e: EntryView| #[trigger]
            out.contains(e) <==> es.contains(e) && p.is_prefix_of(e.0) by {
            if p.is_prefix_of(es[0].0) {
                assert(out[0] == es[0]);
                if out.contains(e) {
                    let i = choose|i: int| 0 <= i < out.len() && out[i] == e;
                    if i > 0 {
                        assert(rest[i - 1] == e);
                    }
                }
                if rest.contains(e) {
                    let i = choose|i: int| 0 <= i < rest.len() && rest[i] == e;
                    assert(out[i + 1] == e);
                }
            }
        }
        if sorted(es) {
            assert forall|i: int, j: int| 0 <= i < j < tail.len() implies lex_lt(
                #[trigger] tail[i].0,
                #[trigger] tail[j].0,
            ) by {
                assert(tail[i] == es[i + 1] && tail[j] == es[j + 1]);
            }
            if p.is_prefix_of(es[0].0) {
                assert forall|i: int, j: int| 0 <= i < j < out.len() implies lex_lt(
                    #[trigger] out[i].0,
                    #[trigger] out[j].0,
                ) by {
                    assert(out[j] == rest[j - 1]);
                    if i == 0 {
                        assert(rest.contains(rest[j - 1]));
                        assert(tail.contains(out[j]));
                        let m = choose|m: int| 0 <= m < tail.len() && tail[m] == out[j];
                        assert(es[m + 1] == out[j]);
                    } else {
                        assert(out[i] == rest[i - 1]);
                    }
                }
            }
        }
    }
}

/// Where every key begins with the prefix that is stripped, no entry is left
/// out: each is handed out, with its gas cost.
pub proof fn lemma_metered_all(es: Seq<EntryView>, db_prefix: Seq<char>)
    requires
        forall|i: int| 0 <= i < es.len() ==> db_prefix.is_prefix_of(#[trigger] es[i].0),
    ensures
        metered(es, db_prefix).len() == es.len(),
        forall|i: int|
            0 <= i < es.len() ==> #[trigger] metered(es, db_prefix)[i] == meter(
                es[i],
                db_prefix.len(),
            ),
    decreases es.len(),
{
    if es.len() > 0 {
        let tail = es.drop_first();
        assert forall|i: int| 0 <= i < tail.len() implies db_prefix.is_prefix_of(
            #[trigger] tail[i].0,
        ) by {
            assert(tail[i] == es[i + 1]);
        }
        lemma_metered_all(tail, db_prefix);
        assert(db_prefix.is_prefix_of(es[0].0));
        let out = metered(es, db_prefix);
        assert forall|i: int| 0 <= i < es.len() implies #[trigger] out[i] == meter(
            es[i],
            db_prefix.len(),
        ) by {
            if i > 0 {
                assert(out[i] == metered(tail, db_prefix)[i - 1]);
                assert(tail[i - 1] == es[i]);
            }
        }
    }
}

/// Iterating over a prefix hands out exactly the stored application entries
/// whose key begins with the prefix, each once, in the lexicographic order
/// of the keys, each with its key as the application wrote it and with its
/// gas cost.
///
/// `selected` are the stored entries that the base iterator hands out, in
/// ascending order of their keys, and `out` is what the metered iterator
/// hands out, as the contract of [`MockDB::iter_prefix`] states them.
pub proof fn law_iter_prefix(db: MockDB, prefix: Key)
    requires
        db.wf(),
        prefix.wf(),
    ensures
        ({
            let start = subspace_key(prefix@);
            let selected = select_prefixed(db.entries(), start);
            let out = metered(selected, subspace_prefix());
            &&& forall|k: Seq<char>, v: Seq<u8>| #[trigger]
                selected.contains((k, v)) <==> db@.contains_key(k) && db@[k] == v
                    && start.is_prefix_of(k)
            &&& sorted(selected)
            &&& out.len() == selected.len()
            &&& forall|i: int|
                0 <= i < out.len() ==> #[trigger] out[i] == meter(
                    selected[i],
                    subspace_prefix().len(),
                )
            &&& forall|i: int, j: int|
                0 <= i < j < out.len() ==> lex_lt(#[trigger] out[i].0, #[trigger] out[j].0)
        }),
{
    let es = db.entries();
    let dp = subspace_prefix();
    let n = dp.len() as int;
    let start = subspace_key(prefix@);
    let selected = select_prefixed(es, start);
    let out = metered(selected, dp);
    lemma_select_prefixed(es, start);
    assert(start.subrange(0, n) =~= dp);
    assert forall|k: Seq<char>| start.is_prefix_of(k) implies dp.is_prefix_of(k) by {
        assert(k.subrange(0, n) =~= k.subrange(0, start.len() as int).subrange(0, n));
    }
    assert forall|i: int| 0 <= i < selected.len() implies dp.is_prefix_of(
        #[trigger] selected[i].0,
    ) by {
        assert(selected.contains(selected[i]));
    }
    lemma_metered_all(selected, dp);
    assert forall|k: Seq<char>, v: Seq<u8>| #[trigger]
        selected.contains((k, v)) <==> db@.contains_key(k) && db@[k] == v && start.is_prefix_of(
            k,
        ) by {
        if es.contains((k, v)) {
            let i = choose|i: int| 0 <= i < es.len() && es[i] == (k, v);
            lemma_map_holds_entry(es, i);
        }
        if db@.contains_key(k) && db@[k] == v {
            assert(has_key(es, k));
            let i = position_of(es, k);
            lemma_map_holds_entry(es, i);
            assert(es[i] == (k, v));
        }
    }
    assert forall|i: int, j: int| 0 <= i < j < out.len() implies lex_lt(
        #[trigger] out[i].0,
        #[trigger] out[j].0,
    ) by {
        let a = selected[i].0;
        let b = selected[j].0;
        assert(out[i] == meter(selected[i], dp.len()));
        assert(out[j] == meter(selected[j], dp.len()));
        assert(dp.is_prefix_of(a) && dp.is_prefix_of(b));
        assert(a.take(n) =~= b.take(n));
        lemma_lex_common_prefix(a, b, n);
    }
}

} // verus!
