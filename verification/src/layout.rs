//! The layout of the flat key space.
//!
//! One string-keyed table holds three kinds of data. The record of the block
//! at height `h` lives under `h/tree/root`, `h/tree/store`, `h/hash`,
//! `h/epoch`, `h/pred_epochs` and `h/address_gen`, with `h` as a decimal
//! numeral. The key `height` holds the height of the last block, and the
//! keys `next_epoch_min_start_height` and `next_epoch_min_start_time` hold
//! the schedule of the next epoch. Application data lives under
//! `subspace/` followed by the string form of the application's key.

use crate::key::{
    join_segments, lemma_join_concat, valid_segment, Key, KeySeg, KEY_SEGMENT_SEPARATOR,
};
use crate::text::{
    chars_of, decimal, find_from, first_index_of, lemma_decimal_digits, lemma_first_index_is,
    lemma_first_index_none, str_eq, u64_to_decimal,
};
use crate::types::{BlockHeight, Error};
use vstd::prelude::*;
use vstd::string::*;

verus! {

/// One of the six parts of a block's record that are stored under its
/// height.
#[derive(Clone, Copy, Debug, PartialEq, Eq, Structural)]
pub enum BlockField {
    Root,
    Store,
    Hash,
    Epoch,
    PredEpochs,
    AddressGen,
}

/// The key that holds the height of the last block.
pub open spec fn height_key() -> Seq<char> {
    "height"@
}

/// The key that holds the least height at which the next epoch may start.
pub open spec fn next_epoch_min_start_height_key() -> Seq<char> {
    "next_epoch_min_start_height"@
}

/// The key that holds the least time at which the next epoch may start.
pub open spec fn next_epoch_min_start_time_key() -> Seq<char> {
    "next_epoch_min_start_time"@
}

/// What follows the height and the separator in the key of a block field.
pub open spec fn field_suffix(f: BlockField) -> Seq<char> {
    match f {
        BlockField::Root => "tree/root"@,
        BlockField::Store => "tree/store"@,
        BlockField::Hash => "hash"@,
        BlockField::Epoch => "epoch"@,
        BlockField::PredEpochs => "pred_epochs"@,
        BlockField::AddressGen => "address_gen"@,
    }
}

/// The common start of the keys of the block at height `h`.
pub open spec fn height_prefix(h: u64) -> Seq<char> {
    decimal(h as nat) + seq![KEY_SEGMENT_SEPARATOR]
}

/// The key of the field `f` of the block at height `h`.
pub open spec fn block_key(h: u64, f: BlockField) -> Seq<char> {
    height_prefix(h) + field_suffix(f)
}

/// The start of every key of application data.
pub open spec fn subspace_prefix() -> Seq<char> {
    "subspace/"@
}

/// The key under which the value of the application key `key` is stored.
pub open spec fn subspace_key(key: Seq<Seq<char>>) -> Seq<char> {
    subspace_prefix() + join_segments(key)
}

/// Whether reading the block at height `h` visits the key `k`: the keys
/// visited are those that begin with the prefix of `h`, and so the data of
/// that height and of no other.
pub open spec fn in_scan_range(k: Seq<char>, h: u64) -> bool {
    height_prefix(h).is_prefix_of(k)
}

/// The block field that a path names, if it names one.
pub open spec fn field_of_suffix(rest: Seq<char>) -> Option<BlockField> {
    if rest == field_suffix(BlockField::Root) {
        Some(BlockField::Root)
    } else if rest == field_suffix(BlockField::Store) {
        Some(BlockField::Store)
    } else if rest == field_suffix(BlockField::Hash) {
        Some(BlockField::Hash)
    } else if rest == field_suffix(BlockField::Epoch) {
        Some(BlockField::Epoch)
    } else if rest == field_suffix(BlockField::PredEpochs) {
        Some(BlockField::PredEpochs)
    } else if rest == field_suffix(BlockField::AddressGen) {
        Some(BlockField::AddressGen)
    } else {
        None
    }
}

/// The block field that the key `k` holds: what follows the first separator
/// of `k` decides, and it has to be the path of a field in full.
pub open spec fn field_of_key(k: Seq<char>) -> Option<BlockField> {
    match first_index_of(k, KEY_SEGMENT_SEPARATOR) {
        Some(i) => field_of_suffix(k.skip(i + 1)),
        None => None,
    }
}

/// The six paths are those of their literals, and no two are the same.
pub proof fn lemma_field_suffixes(f: BlockField)
    ensures
        field_of_suffix(field_suffix(f)) == Some(f),
        field_suffix(BlockField::Root) == seq!['t', 'r', 'e', 'e', '/', 'r', 'o', 'o', 't'],
        field_suffix(BlockField::Store) == seq!['t', 'r', 'e', 'e', '/', 's', 't', 'o', 'r', 'e'],
        field_suffix(BlockField::Hash) == seq!['h', 'a', 's', 'h'],
        field_suffix(BlockField::Epoch) == seq!['e', 'p', 'o', 'c', 'h'],
        field_suffix(BlockField::PredEpochs) == seq![
            'p',
            'r',
            'e',
            'd',
            '_',
            'e',
            'p',
            'o',
            'c',
            'h',
            's',
        ],
        field_suffix(BlockField::AddressGen) == seq![
            'a',
            'd',
            'd',
            'r',
            'e',
            's',
            's',
            '_',
            'g',
            'e',
            'n',
        ],
{
    reveal_strlit("tree/root");
    reveal_strlit("tree/store");
    reveal_strlit("hash");
    reveal_strlit("epoch");
    reveal_strlit("pred_epochs");
    reveal_strlit("address_gen");
    let root = field_suffix(BlockField::Root);
    let store = field_suffix(BlockField::Store);
    let hash = field_suffix(BlockField::Hash);
    let epoch = field_suffix(BlockField::Epoch);
    let pred = field_suffix(BlockField::PredEpochs);
    let gen = field_suffix(BlockField::AddressGen);
    assert(root =~= seq!['t', 'r', 'e', 'e', '/', 'r', 'o', 'o', 't']);
    assert(store =~= seq!['t', 'r', 'e', 'e', '/', 's', 't', 'o', 'r', 'e']);
    assert(hash =~= seq!['h', 'a', 's', 'h']);
    assert(epoch =~= seq!['e', 'p', 'o', 'c', 'h']);
    assert(pred =~= seq!['p', 'r', 'e', 'd', '_', 'e', 'p', 'o', 'c', 'h', 's']);
    assert(gen =~= seq!['a', 'd', 'd', 'r', 'e', 's', 's', '_', 'g', 'e', 'n']);
    assert(root[5] != store[5]);
    assert(root[0] != hash[0] && root[0] != epoch[0] && root[0] != pred[0] && root[0] != gen[0]);
    assert(store[0] != hash[0] && store[0] != epoch[0] && store[0] != pred[0] && store[0]
        != gen[0]);
    assert(hash[0] != epoch[0] && hash[0] != pred[0] && hash[0] != gen[0]);
    assert(epoch[0] != pred[0] && epoch[0] != gen[0]);
    assert(pred[0] != gen[0]);
}

/// The key of a block field is recognised as the key of that field.
pub proof fn lemma_field_of_block_key(h: u64, f: BlockField)
    ensures
        field_of_key(block_key(h, f)) == Some(f),
{
    let d = decimal(h as nat);
    let k = block_key(h, f);
    lemma_decimal_digits(h as nat);
    assert forall|j: int| 0 <= j < d.len() implies k[j] != KEY_SEGMENT_SEPARATOR by {
        assert(k[j] == d[j]);
    }
    lemma_first_index_is(k, KEY_SEGMENT_SEPARATOR, d.len() as int);
    assert(k.skip(d.len() as int + 1) =~= field_suffix(f));
    lemma_field_suffixes(f);
}

/// The block field that `key` holds, if it holds one.
pub fn classify(key: &str) -> (r: Option<BlockField>)
    ensures
        r == field_of_key(key@),
{
    let v = chars_of(key);
    assert(v@.skip(0) =~= v@);
    match find_from(&v, 0, KEY_SEGMENT_SEPARATOR) {
        None => None,
        Some(i) => {
            let rest = key.substring_char(i + 1, v.len());
            assert(rest@ =~= key@.skip(i + 1));
            if str_eq(rest, "tree/root") {
                Some(BlockField::Root)
            } else if str_eq(rest, "tree/store") {
                Some(BlockField::Store)
            } else if str_eq(rest, "hash") {
                Some(BlockField::Hash)
            } else if str_eq(rest, "epoch") {
                Some(BlockField::Epoch)
            } else if str_eq(rest, "pred_epochs") {
                Some(BlockField::PredEpochs)
            } else if str_eq(rest, "address_gen") {
                Some(BlockField::AddressGen)
            } else {
                None
            }
        },
    }
}

/// The common start of the keys of the block at `height`.
pub fn height_prefix_string(height: BlockHeight) -> (s: String)
    ensures
        s@ == height_prefix(height.0),
{
    let mut s = u64_to_decimal(height.0);
    s.append("/");
    proof {
        reveal_strlit("/");
        assert(s@ =~= height_prefix(height.0));
    }
    s
}

/// Pushes a literal segment that is known to be valid.
fn push_literal(key: &Key, seg: &str) -> (r: Result<Key, Error>)
    requires
        key.wf(),
        valid_segment(seg@),
    ensures
        r is Ok,
        r->Ok_0@ == key@.push(seg@),
        r->Ok_0.wf(),
{
    let seg = String::from_str(seg);
    match key.push(&seg) {
        Ok(k) => Ok(k),
        Err(e) => Err(Error::KeyError(e)),
    }
}

/// The string form of the key of the field `field` of the block at
/// `height`.
pub fn block_key_string(height: BlockHeight, field: BlockField) -> (r: Result<String, Error>)
    ensures
        r is Ok,
        r->Ok_0@ == block_key(height.0, field),
{
    let numeral = height.raw();
    proof {
        lemma_decimal_digits(height.0 as nat);
        lemma_first_index_none(numeral@, KEY_SEGMENT_SEPARATOR);
        lemma_field_suffixes(field);
        reveal_strlit("tree");
        reveal_strlit("root");
        reveal_strlit("store");
        reveal_strlit("hash");
        reveal_strlit("epoch");
        reveal_strlit("pred_epochs");
        reveal_strlit("address_gen");
    }
    let prefix_key = match Key::parse(numeral.as_str()) {
        Ok(k) => k,
        Err(e) => {
            return Err(Error::KeyError(e));
        },
    };
    let ghost d = decimal(height.0 as nat);
    assert(prefix_key@ == seq![d]);
    let key = match field {
        BlockField::Root => {
            let tree = match push_literal(&prefix_key, "tree") {
                Ok(k) => k,
                Err(e) => {
                    return Err(e);
                },
            };
            push_literal(&tree, "root")
        },
        BlockField::Store => {
            let tree = match push_literal(&prefix_key, "tree") {
                Ok(k) => k,
                Err(e) => {
                    return Err(e);
                },
            };
            push_literal(&tree, "store")
        },
        BlockField::Hash => push_literal(&prefix_key, "hash"),
        BlockField::Epoch => push_literal(&prefix_key, "epoch"),
        BlockField::PredEpochs => push_literal(&prefix_key, "pred_epochs"),
        BlockField::AddressGen => push_literal(&prefix_key, "address_gen"),
    };
    match key {
        Ok(k) => {
            let s = k.to_string();
            proof {
                let segs = k@;
                let tail = segs.drop_first();
                assert(segs =~= seq![d] + tail);
                lemma_join_concat(seq![d], tail);
                if segs.len() == 3 {
                    assert(tail =~= seq![segs[1]] + seq![segs[2]]);
                    lemma_join_concat(seq![segs[1]], seq![segs[2]]);
                    assert(join_segments(seq![segs[1]]) == segs[1]);
                    assert(join_segments(seq![segs[2]]) == segs[2]);
                } else {
                    assert(tail =~= seq![segs[1]]);
                    assert(join_segments(seq![segs[1]]) == segs[1]);
                }
                assert(join_segments(seq![d]) == d);
                assert(join_segments(tail) =~= field_suffix(field));
                assert(s@ =~= block_key(height.0, field));
            }
            Ok(s)
        },
        Err(e) => Err(e),
    }
}

/// The string form of the key under which the value of the application key
/// `key` is stored.
pub fn subspace_key_string(key: &Key) -> (r: Result<String, Error>)
    ensures
        r is Ok,
        r->Ok_0@ == subspace_key(key@),
{
    proof {
        use_type_invariant(key);
        reveal_strlit("subspace");
        reveal_strlit("subspace/");
        lemma_first_index_none("subspace"@, KEY_SEGMENT_SEPARATOR);
    }
    let base = match Key::parse("subspace") {
        Ok(k) => k,
        Err(e) => {
            return Err(Error::KeyError(e));
        },
    };
    let s = base.join(key).to_string();
    proof {
        lemma_join_concat(base@, key@);
        assert(s@ =~= subspace_key(key@));
    }
    Ok(s)
}

} // verus!
