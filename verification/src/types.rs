//! The values that a block commits to storage, and the errors of the
//! storage interface.

use crate::codec::{CodingError, DateTimeUtc};
use crate::key::{KeyError, KeyErrorView, KeySeg};
use crate::text::{decimal, u64_to_decimal};
use vstd::prelude::*;

verus! {

/// The sequence number of a block.
#[derive(Clone, Copy, Debug, PartialEq, Eq, Structural)]
pub struct BlockHeight(pub u64);

impl KeySeg for BlockHeight {
    /// A height stands in a key as its decimal numeral.
    open spec fn raw_spec(&self) -> Seq<char> {
        decimal(self.0 as nat)
    }

    fn raw(&self) -> (s: String) {
        u64_to_decimal(self.0)
    }
}

/// The number of an epoch.
#[derive(Clone, Copy, Debug, PartialEq, Eq, Structural)]
pub struct Epoch(pub u64);

/// The heights at which the epochs before the current one began.
#[derive(Clone, Debug, PartialEq, Eq)]
pub struct Epochs {
    pub first_block_heights: Vec<BlockHeight>,
}

impl View for Epochs {
    type V = Seq<u64>;

    open spec fn view(&self) -> Seq<u64> {
        Seq::new(self.first_block_heights@.len(), |i: int| self.first_block_heights@[i].0)
    }
}

impl Epochs {
    /// The heights as plain integers.
    pub fn to_raw(&self) -> (raw: Vec<u64>)
        ensures
            raw@ == self@,
    {
        let mut raw: Vec<u64> = Vec::new();
        let mut i: usize = 0;
        while i < self.first_block_heights.len()
            invariant
                i <= self.first_block_heights@.len(),
                raw@.len() == i,
                forall|j: int| 0 <= j < i ==> raw@[j] == self.first_block_heights@[j].0,
            decreases self.first_block_heights.len() - i,
        {
            raw.push(self.first_block_heights[i].0);
            i = i + 1;
        }
        assert(raw@ =~= self@);
        raw
    }

    /// The epochs that began at the heights `raw`.
    pub fn from_raw(raw: &Vec<u64>) -> (epochs: Epochs)
        ensures
            epochs@ == raw@,
    {
        let mut heights: Vec<BlockHeight> = Vec::new();
        let mut i: usize = 0;
        while i < raw.len()
            invariant
                i <= raw@.len(),
                heights@.len() == i,
                forall|j: int| 0 <= j < i ==> heights@[j].0 == raw@[j],
            decreases raw.len() - i,
        {
            heights.push(BlockHeight(raw[i]));
            i = i + 1;
        }
        let epochs = Epochs { first_block_heights: heights };
        assert(epochs@ =~= raw@);
        epochs
    }
}

/// The root of the commitment tree.
#[derive(Clone, Debug, PartialEq, Eq)]
pub struct MerkleRoot(pub Vec<u8>);

/// The hash of a block.
#[derive(Clone, Debug, PartialEq, Eq)]
pub struct BlockHash(pub Vec<u8>);

/// The state from which new addresses are generated.
#[derive(Clone, Debug, PartialEq, Eq)]
pub struct EstablishedAddressGen(pub Vec<u8>);

/// What the contracts see of the record of one block.
pub struct BlockStateView {
    pub root: Seq<u8>,
    pub store: Seq<u8>,
    pub hash: Seq<u8>,
    pub height: u64,
    pub epoch: u64,
    pub pred_epochs: Seq<u64>,
    pub next_epoch_min_start_height: u64,
    pub next_epoch_min_start_time: DateTimeUtc,
    pub address_gen: Seq<u8>,
}

/// The record of the last committed block, as read from storage.
#[derive(Clone, Debug, PartialEq, Eq)]
pub struct BlockStateRead {
    /// Root of the commitment tree
    pub root: MerkleRoot,
    /// The serialized store of the commitment tree
    pub store: Vec<u8>,
    /// Hash of the block
    pub hash: BlockHash,
    /// Height of the block
    pub height: BlockHeight,
    /// Epoch of the block
    pub epoch: Epoch,
    /// Predecessor block epochs
    pub pred_epochs: Epochs,
    /// Minimum block height at which the next epoch may start
    pub next_epoch_min_start_height: BlockHeight,
    /// Minimum block time at which the next epoch may start
    pub next_epoch_min_start_time: DateTimeUtc,
    /// Established address generator
    pub address_gen: EstablishedAddressGen,
}

/// The record of a block to commit to storage.
#[derive(Clone, Debug, PartialEq, Eq)]
pub struct BlockStateWrite {
    /// Root of the commitment tree
    pub root: MerkleRoot,
    /// The serialized store of the commitment tree
    pub store: Vec<u8>,
    /// Hash of the block
    pub hash: BlockHash,
    /// Height of the block
    pub height: BlockHeight,
    /// Epoch of the block
    pub epoch: Epoch,
    /// Predecessor block epochs
    pub pred_epochs: Epochs,
    /// Minimum block height at which the next epoch may start
    pub next_epoch_min_start_height: BlockHeight,
    /// Minimum block time at which the next epoch may start
    pub next_epoch_min_start_time: DateTimeUtc,
    /// Established address generator
    pub address_gen: EstablishedAddressGen,
}

impl View for BlockStateRead {
    type V = BlockStateView;

    open spec fn view(&self) -> BlockStateView {
        BlockStateView {
            root: self.root.0@,
            store: self.store@,
            hash: self.hash.0@,
            height: self.height.0,
            epoch: self.epoch.0,
            pred_epochs: self.pred_epochs@,
            next_epoch_min_start_height: self.next_epoch_min_start_height.0,
            next_epoch_min_start_time: self.next_epoch_min_start_time,
            address_gen: self.address_gen.0@,
        }
    }
}

impl View for BlockStateWrite {
    type V = BlockStateView;

    open spec fn view(&self) -> BlockStateView {
        BlockStateView {
            root: self.root.0@,
            store: self.store@,
            hash: self.hash.0@,
            height: self.height.0,
            epoch: self.epoch.0,
            pred_epochs: self.pred_epochs@,
            next_epoch_min_start_height: self.next_epoch_min_start_height.0,
            next_epoch_min_start_time: self.next_epoch_min_start_time,
            address_gen: self.address_gen.0@,
        }
    }
}

/// Why a storage operation failed.
#[derive(Clone, Debug, PartialEq, Eq)]
pub enum Error {
    /// Stored data is incomplete.
    Temporary { error: String },
    /// A key was found where none of that form belongs.
    UnknownKey { key: String },
    /// A key could not be built.
    KeyError(KeyError),
    /// A stored value could not be decoded.
    CodingError(CodingError),
}

/// What the contracts see of an [`Error`].
pub enum ErrorView {
    Temporary { error: Seq<char> },
    UnknownKey { key: Seq<char> },
    KeyError(KeyErrorView),
    CodingError(CodingError),
}

impl View for Error {
    type V = ErrorView;

    open spec fn view(&self) -> ErrorView {
        match self {
            Error::Temporary { error } => ErrorView::Temporary { error: error@ },
            Error::UnknownKey { key } => ErrorView::UnknownKey { key: key@ },
            Error::KeyError(e) => ErrorView::KeyError(e@),
            Error::CodingError(e) => ErrorView::CodingError(*e),
        }
    }
}

/// An iterator over the entries under a prefix, each with its gas cost. It
/// wraps the iterator of a backend and strips `db_prefix` from the keys.
#[derive(Debug)]
pub struct PrefixIterator<I> {
    /// The iterator of the backend
    pub iter: I,
    /// The start of the keys that the backend adds to the caller's
    pub db_prefix: String,
}

impl<I> PrefixIterator<I> {
    /// Wraps `iter`, whose keys begin with `db_prefix`.
    pub fn new(iter: I, db_prefix: String) -> (it: Self)
        ensures
            it.iter == iter,
            it.db_prefix == db_prefix,
    {
        PrefixIterator { iter, db_prefix }
    }
}

/// The result of a storage operation.
pub type Result<T> = std::result::Result<T, Error>;

} // verus!
