//! An in-memory storage backend.

use crate::codec::{
    decode_bytes, decode_bytes_spec, decode_time, decode_u64, decode_u64_list,
    decode_u64_list_spec, decode_u64_spec, encode_bytes, encode_time, encode_u64,
    encode_u64_list, CodingError, DateTimeUtc,
};
use crate::key::Key;
use crate::layout::{
    block_key_string, classify, height_prefix, height_prefix_string, in_scan_range,
    subspace_key, subspace_key_string, subspace_prefix, BlockField,
};
use crate::record::{
    absorb, assemble, complete, lemma_scan_outside, lemma_scan_skip, lemma_scan_step,
    missing_data_message, read_fields_spec, read_last_block_spec, scan, write_block_spec,
    FieldMap,
};
use crate::table::{sorted, to_map, EntryView, Table};
use crate::text::{
    lemma_before_prefix, lemma_prefix_between, lex_le, starts_with,
};
use crate::types::{
    BlockHash, BlockHeight, BlockStateRead, BlockStateView, BlockStateWrite, Epoch, Epochs,
    Error, ErrorView, EstablishedAddressGen, MerkleRoot, PrefixIterator, Result,
};
use std::path::Path;
use vstd::prelude::*;
use vstd::string::*;
use vstd::utf8::encode_utf8;

verus! {

/// An in-memory DB for testing.
#[derive(Debug)]
pub struct MockDB(Table);

/// An in-memory write batch is not needed as it just updates values in memory.
/// It's here to satisfy the storage interface.
#[derive(Debug, Default)]
pub struct MockDBWriteBatch;

/// The difference `d` as a signed 64-bit number, or the nearest one where it
/// does not fit.
pub open spec fn clamp_i64(d: int) -> i64 {
    if d > i64::MAX {
        i64::MAX
    } else if d < i64::MIN {
        i64::MIN
    } else {
        d as i64
    }
}

/// By how many bytes putting `value` under the key `k` of the table `m`
/// changes what is stored there.
pub open spec fn upsert_delta(m: Map<Seq<char>, Seq<u8>>, k: Seq<char>, value: Seq<u8>) -> i64 {
    if m.contains_key(k) {
        clamp_i64(value.len() - m[k].len())
    } else {
        clamp_i64(value.len() as int)
    }
}

/// How many bytes taking the key `k` out of the table `m` frees.
pub open spec fn delete_delta(m: Map<Seq<char>, Seq<u8>>, k: Seq<char>) -> i64 {
    if m.contains_key(k) {
        clamp_i64(m[k].len() as int)
    } else {
        0
    }
}

/// What the contracts see of the result of reading the last block.
pub open spec fn read_result_view(r: Result<Option<BlockStateRead>>) -> std::result::Result<
    Option<BlockStateView>,
    ErrorView,
> {
    match r {
        Ok(Some(b)) => Ok(Some(b@)),
        Ok(None) => Ok(None),
        Err(e) => Err(e@),
    }
}

/// The entries of `es` whose key begins with `prefix`, in the order of `es`.
pub open spec fn select_prefixed(es: Seq<EntryView>, prefix: Seq<char>) -> Seq<EntryView>
    decreases es.len(),
{
    if es.len() == 0 {
        Seq::empty()
    } else {
        let rest = select_prefixed(es.drop_first(), prefix);
        if prefix.is_prefix_of(es[0].0) {
            seq![es[0]] + rest
        } else {
            rest
        }
    }
}

/// The gas charged for an entry: the bytes of its key, as the caller sees
/// it, plus the bytes of its value; the greatest number where the sum does
/// not fit.
pub open spec fn gas_cost(key: Seq<char>, value: Seq<u8>) -> u64 {
    let n = encode_utf8(key).len() + value.len();
    if n > u64::MAX {
        u64::MAX
    } else {
        n as u64
    }
}

/// What the contracts see of an entry handed out with its gas cost.
pub type MeteredView = (Seq<char>, Seq<u8>, u64);

/// The entry `e` without the `n` first characters of its key, and with its
/// gas cost.
pub open spec fn meter(e: EntryView, n: nat) -> MeteredView {
    (e.0.skip(n as int), e.1, gas_cost(e.0.skip(n as int), e.1))
}

/// The entries of `es` whose key begins with `db_prefix`, in the order of
/// `es`, each without that prefix and with its gas cost. The others are left
/// out.
pub open spec fn metered(es: Seq<EntryView>, db_prefix: Seq<char>) -> Seq<MeteredView>
    decreases es.len(),
{
    if es.len() == 0 {
        Seq::empty()
    } else {
        let rest = metered(es.drop_first(), db_prefix);
        if db_prefix.is_prefix_of(es[0].0) {
            seq![meter(es[0], db_prefix.len())] + rest
        } else {
            rest
        }
    }
}

/// The signed difference of two lengths.
pub fn size_delta(new_len: usize, old_len: usize) -> (d: i64)
    ensures
        d == clamp_i64(new_len - old_len),
{
    if new_len >= old_len {
        let up: u64 = (new_len - old_len) as u64;
        if up > 0x7fff_ffff_ffff_ffff {
            i64::MAX
        } else {
            up as i64
        }
    } else {
        let down: u64 = (old_len - new_len) as u64;
        if down > 0x7fff_ffff_ffff_ffff {
            i64::MIN
        } else {
            -(down as i64)
        }
    }
}

/// The error for a key that is none of those a block is stored under.
pub fn unknown_key_error(key: &str) -> (r: Result<()>)
    ensures
        r is Err,
        r->Err_0@ == (ErrorView::UnknownKey { key: key@ }),
{
    Err(Error::UnknownKey { key: String::from_str(key) })
}

/// In a sorted list the keys that begin with the prefix of `h` stand
/// together: once an entry at or after the prefix does not begin with it,
/// the walk from there on changes nothing.
proof fn lemma_scan_past_range(es: Seq<EntryView>, h: u64, acc: FieldMap, i: int)
    requires
        sorted(es),
        0 <= i < es.len(),
        lex_le(height_prefix(h), es[i].0),
        !in_scan_range(es[i].0, h),
    ensures
        scan(es.skip(i), h, acc) == Ok::<FieldMap, ErrorView>(acc),
{
    let rest = es.skip(i);
    assert forall|j: int| 0 <= j < rest.len() implies !in_scan_range(#[trigger] rest[j].0, h) by {
        assert(rest[j] == es[i + j]);
        if j > 0 && in_scan_range(es[i + j].0, h) {
            lemma_prefix_between(height_prefix(h), es[i].0, es[i + j].0);
        }
    }
    lemma_scan_outside(rest, h, acc);
}

/// The block fields decoded so far while a record is read.
struct FoundFields {
    root: Option<MerkleRoot>,
    store: Option<Vec<u8>>,
    hash: Option<BlockHash>,
    epoch: Option<Epoch>,
    pred_epochs: Option<Epochs>,
    address_gen: Option<EstablishedAddressGen>,
}

impl FoundFields {
    /// Whether `self` holds the decoded form of exactly the raw values `acc`.
    spec fn tracks(&self, acc: FieldMap) -> bool {
        &&& self.root is Some <==> acc.contains_key(BlockField::Root)
        &&& self.root matches Some(x) ==> decode_bytes_spec(acc[BlockField::Root]) == Ok::<
            Seq<u8>,
            CodingError,
        >(x.0@)
        &&& self.store is Some <==> acc.contains_key(BlockField::Store)
        &&& self.store matches Some(x) ==> decode_bytes_spec(acc[BlockField::Store]) == Ok::<
            Seq<u8>,
            CodingError,
        >(x@)
        &&& self.hash is Some <==> acc.contains_key(BlockField::Hash)
        &&& self.hash matches Some(x) ==> decode_bytes_spec(acc[BlockField::Hash]) == Ok::<
            Seq<u8>,
            CodingError,
        >(x.0@)
        &&& self.epoch is Some <==> acc.contains_key(BlockField::Epoch)
        &&& self.epoch matches Some(x) ==> decode_u64_spec(acc[BlockField::Epoch]) == Ok::<
            u64,
            CodingError,
        >(x.0)
        &&& self.pred_epochs is Some <==> acc.contains_key(BlockField::PredEpochs)
        &&& self.pred_epochs matches Some(x) ==> decode_u64_list_spec(
            acc[BlockField::PredEpochs],
        ) == Ok::<Seq<u64>, CodingError>(x@)
        &&& self.address_gen is Some <==> acc.contains_key(BlockField::AddressGen)
        &&& self.address_gen matches Some(x) ==> decode_bytes_spec(acc[BlockField::AddressGen])
            == Ok::<Seq<u8>, CodingError>(x.0@)
    }

    fn new() -> (found: FoundFields)
        ensures
            found.tracks(Map::empty()),
    {
        FoundFields {
            root: None,
            store: None,
            hash: None,
            epoch: None,
            pred_epochs: None,
            address_gen: None,
        }
    }

    /// Takes in the entry `(path, bytes)`: decodes the field that `path`
    /// names.
    fn absorb(&mut self, path: &str, bytes: &[u8], Ghost(acc): Ghost<FieldMap>) -> (r: Result<()>)
        requires
            old(self).tracks(acc),
        ensures
            match absorb(acc, path@, bytes@) {
                Ok(next) => r is Ok && final(self).tracks(next),
                Err(e) => r is Err && r->Err_0@ == e,
            },
    {
        match classify(path) {
            Some(BlockField::Root) => match decode_bytes(bytes) {
                Ok(v) => {
                    self.root = Some(MerkleRoot(v));
                },
                Err(e) => {
                    return Err(Error::CodingError(e));
                },
            },
            Some(BlockField::Store) => match decode_bytes(bytes) {
                Ok(v) => {
                    self.store = Some(v);
                },
                Err(e) => {
                    return Err(Error::CodingError(e));
                },
            },
            Some(BlockField::Hash) => match decode_bytes(bytes) {
                Ok(v) => {
                    self.hash = Some(BlockHash(v));
                },
                Err(e) => {
                    return Err(Error::CodingError(e));
                },
            },
            Some(BlockField::Epoch) => match decode_u64(bytes) {
                Ok(v) => {
                    self.epoch = Some(Epoch(v));
                },
                Err(e) => {
                    return Err(Error::CodingError(e));
                },
            },
            Some(BlockField::PredEpochs) => match decode_u64_list(bytes) {
                Ok(v) => {
                    self.pred_epochs = Some(Epochs::from_raw(&v));
                },
                Err(e) => {
                    return Err(Error::CodingError(e));
                },
            },
            Some(BlockField::AddressGen) => match decode_bytes(bytes) {
                Ok(v) => {
                    self.address_gen = Some(EstablishedAddressGen(v));
                },
                Err(e) => {
                    return Err(Error::CodingError(e));
                },
            },
            None => {
                return unknown_key_error(path);
            },
        }
        Ok(())
    }

    /// The record, where all six fields were found.
    fn finish(
        self,
        height: BlockHeight,
        next_epoch_min_start_height: BlockHeight,
        next_epoch_min_start_time: DateTimeUtc,
        Ghost(acc): Ghost<FieldMap>,
    ) -> (r: Result<Option<BlockStateRead>>)
        requires
            self.tracks(acc),
        ensures
            read_result_view(r) == if complete(acc) {
                Ok::<Option<BlockStateView>, ErrorView>(
                    Some(
                        assemble(
                            acc,
                            height.0,
                            next_epoch_min_start_height.0,
                            next_epoch_min_start_time,
                        ),
                    ),
                )
            } else {
                Err::<Option<BlockStateView>, ErrorView>(
                    ErrorView::Temporary { error: missing_data_message() },
                )
            },
    {
        match (
            self.root,
            self.store,
            self.hash,
            self.epoch,
            self.pred_epochs,
            self.address_gen,
        ) {
            (
                Some(root),
                Some(store),
                Some(hash),
                Some(epoch),
                Some(pred_epochs),
                Some(address_gen),
            ) => Ok(
                Some(
                    BlockStateRead {
                        root,
                        store,
                        hash,
                        height,
                        epoch,
                        pred_epochs,
                        next_epoch_min_start_height,
                        next_epoch_min_start_time,
                        address_gen,
                    },
                ),
            ),
            _ => Err(
                Error::Temporary {
                    error: String::from_str("Essential data couldn't be read from the DB"),
                },
            ),
        }
    }
}

impl View for MockDB {
    type V = Map<Seq<char>, Seq<u8>>;

    /// The stored keys and values.
    open spec fn view(&self) -> Map<Seq<char>, Seq<u8>> {
        to_map(self.entries())
    }
}

impl Default for MockDB {
    /// An empty backend.
    fn default() -> (db: MockDB)
        ensures
            db.entries() == Seq::<EntryView>::empty(),
            db@ == Map::<Seq<char>, Seq<u8>>::empty(),
            db.wf(),
    {
        MockDB(Table::new())
    }
}

impl MockDB {
    /// The stored entries in the order of their keys.
    pub closed spec fn entries(&self) -> Seq<EntryView> {
        self.0.entries()
    }

    /// Whether the entries are in order. Holds of every backend that exists
    /// at run time.
    pub open spec fn wf(&self) -> bool {
        sorted(self.entries())
    }

    /// A backend over the given table.
    pub fn from_table(table: Table) -> (db: MockDB)
        ensures
            db.entries() == table.entries(),
            db.wf(),
    {
        proof {
            use_type_invariant(&table);
        }
        MockDB(table)
    }

    /// The table that holds the data.
    pub fn table(&self) -> (t: &Table)
        ensures
            t.entries() == self.entries(),
    {
        &self.0
    }

    /// Opens a backend. It starts empty, whatever the path.
    pub fn open(_db_path: impl AsRef<Path>) -> (db: MockDB)
        ensures
            db.entries() == Seq::<EntryView>::empty(),
            db@ == Map::<Seq<char>, Seq<u8>>::empty(),
            db.wf(),
    {
        MockDB::default()
    }

    /// Makes what was written durable. In memory there is nothing to do.
    pub fn flush(&self) -> (r: Result<()>)
        ensures
            r is Ok,
    {
        Ok(())
    }

    /// Reads the record of the last committed block.
    ///
    /// Gives `None` where no block was ever committed: where there is no
    /// height key. Else the epoch schedule has to be there, every key under
    /// the last height has to be one of the six a block is stored under, with
    /// a value that decodes, and all six have to be there.
    pub fn read_last_block(&mut self) -> (r: Result<Option<BlockStateRead>>)
        ensures
            read_result_view(r) == read_last_block_spec(old(self).entries()),
            final(self).entries() == old(self).entries(),
    {
        proof {
            use_type_invariant(&self.0);
        }
        let table = &self.0;
        let ghost es = table.entries();
        // Block height
        let height: u64 = match table.get("height") {
            Some(bytes) => match decode_u64(bytes.as_slice()) {
                Ok(h) => h,
                Err(e) => {
                    return Err(Error::CodingError(e));
                },
            },
            None => {
                return Ok(None);
            },
        };
        // Epoch start height and time
        let next_epoch_min_start_height = match table.get("next_epoch_min_start_height") {
            Some(bytes) => match decode_u64(bytes.as_slice()) {
                Ok(h) => BlockHeight(h),
                Err(e) => {
                    return Err(Error::CodingError(e));
                },
            },
            None => {
                return Err(
                    Error::Temporary {
                        error: String::from_str("Essential data couldn't be read from the DB"),
                    },
                );
            },
        };
        let next_epoch_min_start_time = match table.get("next_epoch_min_start_time") {
            Some(bytes) => match decode_time(bytes.as_slice()) {
                Ok(t) => t,
                Err(e) => {
                    return Err(Error::CodingError(e));
                },
            },
            None => {
                return Err(
                    Error::Temporary {
                        error: String::from_str("Essential data couldn't be read from the DB"),
                    },
                );
            },
        };

        // Load data at the height
        let prefix = height_prefix_string(BlockHeight(height));
        let mut found = FoundFields::new();
        let ghost mut acc: FieldMap = Map::empty();

        let start = table.lower_bound(prefix.as_str());
        proof {
            assert forall|j: int| 0 <= j < start implies !in_scan_range(
                #[trigger] es[j].0,
                height,
            ) by {
                lemma_before_prefix(prefix@, es[j].0);
            }
            lemma_scan_skip(es, height, acc, start as int);
        }
        let len = table.len();
        let mut i = start;
        let mut in_range = true;
        while in_range && i < len
            invariant
                es == table.entries(),
                es == old(self).entries(),
                read_last_block_spec(es) == read_fields_spec(
                    es,
                    height,
                    next_epoch_min_start_height.0,
                    next_epoch_min_start_time,
                ),
                sorted(es),
                len == es.len(),
                start <= i <= len,
                prefix@ == height_prefix(height),
                forall|j: int| start <= j < es.len() ==> lex_le(prefix@, #[trigger] es[j].0),
                in_range ==> scan(es, height, Map::empty()) == scan(es.skip(i as int), height, acc),
                !in_range ==> scan(es, height, Map::empty()) == Ok::<FieldMap, ErrorView>(acc),
                found.tracks(acc),
            decreases len - i + (if in_range { 1int } else { 0int }),
        {
            let path = table.key_at(i);
            let bytes = table.value_at(i);
            if !starts_with(path.as_str(), prefix.as_str()) {
                proof {
                    lemma_scan_past_range(es, height, acc, i as int);
                }
                in_range = false;
            } else {
                proof {
                    lemma_scan_step(es, height, acc, i as int);
                    assert(in_scan_range(es[i as int].0, height));
                }
                match found.absorb(path.as_str(), bytes.as_slice(), Ghost(acc)) {
                    Ok(()) => {},
                    Err(e) => {
                        return Err(e);
                    },
                }
                proof {
                    acc = absorb(acc, es[i as int].0, es[i as int].1)->Ok_0;
                }
                i = i + 1;
            }
        }
        proof {
            if in_range {
                assert(es.skip(i as int) =~= Seq::<EntryView>::empty());
            }
        }
        found.finish(
            BlockHeight(height),
            next_epoch_min_start_height,
            next_epoch_min_start_time,
            Ghost(acc),
        )
    }

    /// Writes the record of a block: the epoch schedule, the six fields under
    /// the block's height, and last the height itself.
    pub fn write_block(&mut self, state: BlockStateWrite) -> (r: Result<()>)
        ensures
            r is Ok,
            final(self)@ == write_block_spec(old(self)@, state@),
            final(self).wf(),
    {
        proof {
            use_type_invariant(&self.0);
        }
        let BlockStateWrite {
            root,
            store,
            hash,
            height,
            epoch,
            pred_epochs,
            next_epoch_min_start_height,
            next_epoch_min_start_time,
            address_gen,
        } = state;

        // Epoch start height and time
        self.0.insert(
            String::from_str("next_epoch_min_start_height"),
            encode_u64(next_epoch_min_start_height.0),
        );
        self.0.insert(
            String::from_str("next_epoch_min_start_time"),
            encode_time(next_epoch_min_start_time),
        );
        // Merkle tree
        {
            // Merkle root hash
            let key = match block_key_string(height, BlockField::Root) {
                Ok(k) => k,
                Err(e) => {
                    return Err(e);
                },
            };
            self.0.insert(key, encode_bytes(root.0.as_slice()));
            // Tree's store
            let key = match block_key_string(height, BlockField::Store) {
                Ok(k) => k,
                Err(e) => {
                    return Err(e);
                },
            };
            self.0.insert(key, encode_bytes(store.as_slice()));
        }
        // Block hash
        {
            let key = match block_key_string(height, BlockField::Hash) {
                Ok(k) => k,
                Err(e) => {
                    return Err(e);
                },
            };
            self.0.insert(key, encode_bytes(hash.0.as_slice()));
        }
        // Block epoch
        {
            let key = match block_key_string(height, BlockField::Epoch) {
                Ok(k) => k,
                Err(e) => {
                    return Err(e);
                },
            };
            self.0.insert(key, encode_u64(epoch.0));
        }
        // Predecessor block epochs
        {
            let key = match block_key_string(height, BlockField::PredEpochs) {
                Ok(k) => k,
                Err(e) => {
                    return Err(e);
                },
            };
            let raw = pred_epochs.to_raw();
            self.0.insert(key, encode_u64_list(&raw));
        }
        // Address gen
        {
            let key = match block_key_string(height, BlockField::AddressGen) {
                Ok(k) => k,
                Err(e) => {
                    return Err(e);
                },
            };
            self.0.insert(key, encode_bytes(address_gen.0.as_slice()));
        }
        self.0.insert(String::from_str("height"), encode_u64(height.0));
        Ok(())
    }

    /// Reads the value stored for `key`.
    pub fn read_subspace_val(&self, key: &Key) -> (r: Result<Option<Vec<u8>>>)
        ensures
            r is Ok,
            match r->Ok_0 {
                Some(v) => self@.contains_key(subspace_key(key@)) && v@ == self@[subspace_key(
                    key@,
                )],
                None => !self@.contains_key(subspace_key(key@)),
            },
    {
        let path = match subspace_key_string(key) {
            Ok(s) => s,
            Err(e) => {
                return Err(e);
            },
        };
        match self.0.get(path.as_str()) {
            Some(v) => Ok(Some(v.clone())),
            None => Ok(None),
        }
    }

    /// Stores `value` for `key` and returns by how many bytes that changes
    /// what is stored for it.
    pub fn write_subspace_val(&mut self, _height: BlockHeight, key: &Key, value: &[u8]) -> (r:
        Result<i64>)
        ensures
            r == Ok::<i64, Error>(upsert_delta(old(self)@, subspace_key(key@), value@)),
            final(self)@ == old(self)@.insert(subspace_key(key@), value@),
            final(self).wf(),
    {
        let path = match subspace_key_string(key) {
            Ok(s) => s,
            Err(e) => {
                return Err(e);
            },
        };
        let current_len = value.len();
        let mut owned: Vec<u8> = Vec::new();
        owned.extend_from_slice(value);
        assert(owned@ =~= value@);
        Ok(
            match self.0.insert(path, owned) {
                Some(prev_value) => size_delta(current_len, prev_value.len()),
                None => size_delta(current_len, 0),
            },
        )
    }

    /// Removes what is stored for `key` and returns how many bytes that frees.
    pub fn delete_subspace_val(&mut self, _height: BlockHeight, key: &Key) -> (r: Result<i64>)
        ensures
            r == Ok::<i64, Error>(delete_delta(old(self)@, subspace_key(key@))),
            final(self)@ == old(self)@.remove(subspace_key(key@)),
            final(self).wf(),
    {
        let path = match subspace_key_string(key) {
            Ok(s) => s,
            Err(e) => {
                return Err(e);
            },
        };
        Ok(
            match self.0.remove(path.as_str()) {
                Some(value) => size_delta(value.len(), 0),
                None => 0,
            },
        )
    }

    /// An empty write batch.
    pub fn batch() -> MockDBWriteBatch {
        MockDBWriteBatch
    }

    /// Applies a batch. Batched writes are applied as they are made, so
    /// nothing is left to do.
    pub fn exec_batch(&mut self, _batch: MockDBWriteBatch) -> (r: Result<()>)
        ensures
            r is Ok,
            final(self).entries() == old(self).entries(),
    {
        Ok(())
    }

    /// Stores `value` for `key` as part of a batch: it is applied at once.
    /// Returns what [`MockDB::write_subspace_val`] returns.
    pub fn batch_write_subspace_val(
        &mut self,
        _batch: &mut MockDBWriteBatch,
        height: BlockHeight,
        key: &Key,
        value: &[u8],
    ) -> (r: Result<i64>)
        ensures
            r == Ok::<i64, Error>(upsert_delta(old(self)@, subspace_key(key@), value@)),
            final(self)@ == old(self)@.insert(subspace_key(key@), value@),
            final(self).wf(),
            *final(_batch) == *old(_batch),
    {
        self.write_subspace_val(height, key, value)
    }

    /// Removes what is stored for `key` as part of a batch: it is applied
    /// at once. Returns what [`MockDB::delete_subspace_val`] returns.
    pub fn batch_delete_subspace_val(
        &mut self,
        _batch: &mut MockDBWriteBatch,
        height: BlockHeight,
        key: &Key,
    ) -> (r: Result<i64>)
        ensures
            r == Ok::<i64, Error>(delete_delta(old(self)@, subspace_key(key@))),
            final(self)@ == old(self)@.remove(subspace_key(key@)),
            final(self).wf(),
            *final(_batch) == *old(_batch),
    {
        self.delete_subspace_val(height, key)
    }
}

/// A prefix iterator base for the [`MockPrefixIterator`]: it walks a snapshot
/// of the table in the order of the keys and hands out the entries whose key
/// begins with its prefix.
#[derive(Debug)]
pub struct MockIterator {
    prefix: String,
    table: Table,
    pos: usize,
}

/// A prefix iterator for the [`MockDB`].
pub type MockPrefixIterator = PrefixIterator<MockIterator>;

impl MockDBWriteBatch {
    /// Stages a write. Batched writes are applied as they are made, so the
    /// batch keeps nothing.
    pub fn put<K: AsRef<[u8]>, V: AsRef<[u8]>>(&mut self, _key: K, _value: V)
        ensures
            *final(self) == *old(self),
    {
    }

    /// Stages a delete. Batched deletes are applied as they are made, so
    /// the batch keeps nothing.
    pub fn delete<K: AsRef<[u8]>>(&mut self, _key: K)
        ensures
            *final(self) == *old(self),
    {
    }
}

impl View for MockIterator {
    type V = Seq<EntryView>;

    /// The entries still to come, in order.
    open spec fn view(&self) -> Seq<EntryView> {
        select_prefixed(self.rest(), self.prefix())
    }
}

impl MockIterator {
    /// The prefix that the keys handed out begin with.
    pub closed spec fn prefix(&self) -> Seq<char> {
        self.prefix@
    }

    /// The entries of the snapshot not yet looked at.
    pub closed spec fn rest(&self) -> Seq<EntryView> {
        self.table.entries().skip(self.pos as int)
    }

    #[verifier::type_invariant]
    spec fn inv(&self) -> bool {
        self.pos <= self.table.entries().len()
    }

    /// The next entry whose key begins with the prefix, or `None` when no
    /// more is left.
    pub fn next(&mut self) -> (r: Option<(String, Vec<u8>)>)
        ensures
            match r {
                Some((key, val)) => old(self)@.len() > 0 && (key@, val@) == old(self)@[0]
                    && final(self)@ == old(self)@.drop_first(),
                None => old(self)@.len() == 0 && final(self)@.len() == 0,
            },
            final(self).prefix() == old(self).prefix(),
    {
        proof {
            use_type_invariant(&*self);
        }
        let ghost es = self.table.entries();
        let ghost p = self.prefix@;
        while self.pos < self.table.len()
            invariant
                self.table.entries() == es,
                self.prefix@ == p,
                p == old(self).prefix(),
                self.pos <= es.len(),
                select_prefixed(es.skip(self.pos as int), p) == old(self)@,
            decreases es.len() - self.pos,
        {
            let i = self.pos;
            proof {
                assert(es.skip(i as int)[0] == es[i as int]);
                assert(es.skip(i as int).drop_first() =~= es.skip(i + 1));
            }
            self.pos = i + 1;
            let key = self.table.key_at(i);
            if starts_with(key.as_str(), self.prefix.as_str()) {
                let val = self.table.value_at(i);
                let ghost rest = select_prefixed(es.skip(i + 1), p);
                assert((seq![es[i as int]] + rest).drop_first() =~= rest);
                return Some((key.clone(), val.clone()));
            }
        }
        assert(es.skip(self.pos as int) =~= Seq::<EntryView>::empty());
        None
    }
}

impl View for PrefixIterator<MockIterator> {
    type V = Seq<MeteredView>;

    /// The entries still to come, in order, as the caller will get them.
    open spec fn view(&self) -> Seq<MeteredView> {
        metered(self.iter@, self.db_prefix@)
    }
}

impl PrefixIterator<MockIterator> {
    /// Returns the next pair and the gas cost
    pub fn next(&mut self) -> (r: Option<(String, Vec<u8>, u64)>)
        ensures
            match r {
                Some((key, val, gas)) => old(self)@.len() > 0 && (key@, val@, gas) == old(
                    self,
                )@[0] && final(self)@ == old(self)@.drop_first(),
                None => old(self)@.len() == 0 && final(self)@.len() == 0,
            },
            final(self).db_prefix == old(self).db_prefix,
    {
        loop
            invariant
                self.db_prefix == old(self).db_prefix,
                metered(self.iter@, self.db_prefix@) == old(self)@,
            decreases self.iter@.len(),
        {
            let ghost before = self.iter@;
            match self.iter.next() {
                Some((key, val)) => {
                    if starts_with(key.as_str(), self.db_prefix.as_str()) {
                        let skip = self.db_prefix.as_str().unicode_len();
                        let total = key.as_str().unicode_len();
                        let k = key.as_str().substring_char(skip, total);
                        assert(k@ =~= key@.skip(skip as int));
                        let key_len = k.as_bytes().len() as u64;
                        let val_len = val.len() as u64;
                        let gas = if key_len > u64::MAX - val_len {
                            u64::MAX
                        } else {
                            key_len + val_len
                        };
                        let ghost rest = metered(before.drop_first(), self.db_prefix@);
                        assert((seq![meter(before[0], self.db_prefix@.len())] + rest).drop_first()
                            =~= rest);
                        return Some((String::from_str(k), val, gas));
                    }
                },
                None => {
                    return None;
                },
            }
        }
    }
}

impl MockDB {
    /// An iterator over the entries stored for the application keys whose
    /// string form begins with that of `prefix`, in the order of the keys.
    pub fn iter_prefix(&self, prefix: &Key) -> (it: MockPrefixIterator)
        ensures
            it@ == metered(
                select_prefixed(self.entries(), subspace_key(prefix@)),
                subspace_prefix(),
            ),
            it.db_prefix@ == subspace_prefix(),
            it.iter@ == select_prefixed(self.entries(), subspace_key(prefix@)),
            it.iter.prefix() == subspace_key(prefix@),
    {
        let db_prefix = String::from_str("subspace/");
        let mut full = db_prefix.clone();
        full.append(prefix.to_string().as_str());
        let table = self.0.clone();
        assert(table.entries().skip(0) =~= self.entries());
        let iter = MockIterator { prefix: full, table, pos: 0 };
        PrefixIterator::new(iter, db_prefix)
    }
}

} // verus!
