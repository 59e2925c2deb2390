use ledger_storage::codec::{encode_bytes, encode_time, encode_u64, encode_u64_list, CodingError, DateTimeUtc};
use ledger_storage::key::Key;
use ledger_storage::layout::{block_key_string, classify, height_prefix_string, subspace_key_string, BlockField};
use ledger_storage::mockdb::{size_delta, unknown_key_error, MockDB, MockDBWriteBatch};
use ledger_storage::table::Table;
use ledger_storage::types::{
    BlockHash, BlockHeight, BlockStateRead, BlockStateWrite, Epoch, Epochs, Error,
    EstablishedAddressGen, MerkleRoot, PrefixIterator,
};

fn block(height: u64) -> BlockStateWrite {
    BlockStateWrite {
        root: MerkleRoot(vec![0xaa, height as u8]),
        store: vec![1, 2, 3, height as u8],
        hash: BlockHash(vec![height as u8; 32]),
        height: BlockHeight(height),
        epoch: Epoch(2),
        pred_epochs: Epochs { first_block_heights: vec![BlockHeight(0), BlockHeight(3)] },
        next_epoch_min_start_height: BlockHeight(height + 10),
        next_epoch_min_start_time: DateTimeUtc { secs: 1_600_000_000 + height as i64, nanos: 42 },
        address_gen: EstablishedAddressGen(vec![9, 9, height as u8]),
    }
}

fn as_read(w: &BlockStateWrite) -> BlockStateRead {
    BlockStateRead {
        root: w.root.clone(),
        store: w.store.clone(),
        hash: w.hash.clone(),
        height: w.height,
        epoch: w.epoch,
        pred_epochs: w.pred_epochs.clone(),
        next_epoch_min_start_height: w.next_epoch_min_start_height,
        next_epoch_min_start_time: w.next_epoch_min_start_time,
        address_gen: w.address_gen.clone(),
    }
}

fn key(s: &str) -> Key {
    Key::parse(s).unwrap()
}

/// A table that holds a complete block at the given height.
fn table_with_block(height: u64) -> Table {
    let mut db = MockDB::open("");
    db.write_block(block(height)).unwrap();
    db.table().clone()
}

#[test]
fn fresh_store_has_no_block() {
    let mut db = MockDB::open("some/path");
    assert_eq!(db.read_last_block(), Ok(None));
    assert_eq!(db.table().len(), 0);
}

#[test]
fn flush_succeeds() {
    let db = MockDB::open("");
    assert_eq!(db.flush(), Ok(()));
}

#[test]
fn write_then_read() {
    let mut db = MockDB::open("");
    let state = block(5);
    assert_eq!(db.write_block(state.clone()), Ok(()));
    assert_eq!(db.read_last_block(), Ok(Some(as_read(&state))));
}

#[test]
fn write_block_keys() {
    let mut db = MockDB::open("");
    db.write_block(block(5)).unwrap();
    let t = db.table();
    assert_eq!(t.len(), 9);
    let keys: Vec<String> = (0..t.len()).map(|i| t.key_at(i).clone()).collect();
    assert_eq!(
        keys,
        vec![
            "5/address_gen",
            "5/epoch",
            "5/hash",
            "5/pred_epochs",
            "5/tree/root",
            "5/tree/store",
            "height",
            "next_epoch_min_start_height",
            "next_epoch_min_start_time",
        ]
    );
    assert_eq!(t.get("height"), Some(&encode_u64(5)));
    assert_eq!(t.get("5/epoch"), Some(&encode_u64(2)));
    assert_eq!(t.get("5/pred_epochs"), Some(&encode_u64_list(&vec![0, 3])));
    assert_eq!(t.get("5/tree/root"), Some(&encode_bytes(&[0xaa, 5])));
    assert_eq!(t.get("5/tree/store"), Some(&encode_bytes(&[1, 2, 3, 5])));
    assert_eq!(t.get("5/hash"), Some(&encode_bytes(&[5; 32])));
    assert_eq!(t.get("5/address_gen"), Some(&encode_bytes(&[9, 9, 5])));
    assert_eq!(t.get("next_epoch_min_start_height"), Some(&encode_u64(15)));
    assert_eq!(
        t.get("next_epoch_min_start_time"),
        Some(&encode_time(DateTimeUtc { secs: 1_600_000_005, nanos: 42 }))
    );
}

#[test]
fn block_scenario_heights_five_and_six() {
    let mut db = MockDB::open("");
    let five = BlockStateWrite {
        root: MerkleRoot(b"R".to_vec()),
        store: b"S".to_vec(),
        hash: BlockHash(b"H".to_vec()),
        height: BlockHeight(5),
        epoch: Epoch(2),
        pred_epochs: Epochs { first_block_heights: vec![BlockHeight(0), BlockHeight(3)] },
        next_epoch_min_start_height: BlockHeight(8),
        next_epoch_min_start_time: DateTimeUtc { secs: 100, nanos: 0 },
        address_gen: EstablishedAddressGen(b"G".to_vec()),
    };
    db.write_block(five.clone()).unwrap();
    let read = db.read_last_block().unwrap().unwrap();
    assert_eq!(read.height, BlockHeight(5));
    assert_eq!(read.root, MerkleRoot(b"R".to_vec()));
    assert_eq!(read.store, b"S".to_vec());
    assert_eq!(read.hash, BlockHash(b"H".to_vec()));
    assert_eq!(read.epoch, Epoch(2));
    assert_eq!(read.pred_epochs.first_block_heights, vec![BlockHeight(0), BlockHeight(3)]);
    assert_eq!(read.address_gen, EstablishedAddressGen(b"G".to_vec()));
    assert_eq!(read, as_read(&five));

    let six = block(6);
    db.write_block(six.clone()).unwrap();
    assert_eq!(db.read_last_block(), Ok(Some(as_read(&six))));
    // the data of height 5 is still there, untouched
    assert_eq!(db.table().get("5/tree/root"), Some(&encode_bytes(b"R")));
    assert_eq!(db.table().get("5/hash"), Some(&encode_bytes(b"H")));
    assert_eq!(db.table().len(), 15);
}

#[test]
fn rewriting_a_height_replaces_its_record() {
    let mut db = MockDB::open("");
    db.write_block(block(5)).unwrap();
    let mut again = block(5);
    again.root = MerkleRoot(vec![1]);
    again.epoch = Epoch(3);
    db.write_block(again.clone()).unwrap();
    assert_eq!(db.read_last_block(), Ok(Some(as_read(&again))));
    assert_eq!(db.table().len(), 9);
}

#[test]
fn read_leaves_the_store_unchanged() {
    let mut db = MockDB::open("");
    db.write_block(block(7)).unwrap();
    let before = db.table().clone();
    db.read_last_block().unwrap();
    assert_eq!(db.table().len(), before.len());
    for i in 0..before.len() {
        assert_eq!(db.table().key_at(i), before.key_at(i));
        assert_eq!(db.table().value_at(i), before.value_at(i));
    }
}

#[test]
fn unknown_key_is_rejected() {
    let mut t = table_with_block(5);
    t.insert("5/unexpected".to_owned(), vec![1]);
    let mut db = MockDB::from_table(t);
    assert_eq!(
        db.read_last_block(),
        Err(Error::UnknownKey { key: "5/unexpected".to_owned() })
    );
}

#[test]
fn unknown_key_under_tree_is_rejected() {
    let mut t = table_with_block(5);
    t.insert("5/tree/leaf".to_owned(), encode_bytes(&[]));
    let mut db = MockDB::from_table(t);
    assert_eq!(db.read_last_block(), Err(Error::UnknownKey { key: "5/tree/leaf".to_owned() }));
}

#[test]
fn longer_path_is_unknown() {
    let mut t = table_with_block(5);
    t.insert("5/hash/more".to_owned(), encode_bytes(&[]));
    let mut db = MockDB::from_table(t);
    assert_eq!(db.read_last_block(), Err(Error::UnknownKey { key: "5/hash/more".to_owned() }));
}

#[test]
fn keys_of_other_heights_are_not_visited() {
    // "50", "50/hash" and "5" stand next to the keys of height 5 in the order
    // of the keys, but do not begin with "5/".
    let mut t = table_with_block(5);
    t.insert("50".to_owned(), vec![]);
    t.insert("50/hash".to_owned(), encode_bytes(&[7]));
    t.insert("50/unexpected".to_owned(), vec![1]);
    t.insert("5".to_owned(), vec![]);
    let mut db = MockDB::from_table(t);
    assert_eq!(db.read_last_block(), Ok(Some(as_read(&block(5)))));
}

#[test]
fn keys_outside_the_range_are_not_visited() {
    let mut t = table_with_block(5);
    t.insert("4/unexpected".to_owned(), vec![1]);
    t.insert("6/unexpected".to_owned(), vec![1]);
    t.insert("subspace/5/unexpected".to_owned(), vec![1]);
    let mut db = MockDB::from_table(t);
    assert_eq!(db.read_last_block(), Ok(Some(as_read(&block(5)))));
}

#[test]
fn missing_field_is_temporary_error() {
    for gone in ["5/tree/root", "5/tree/store", "5/hash", "5/epoch", "5/pred_epochs", "5/address_gen"] {
        let mut t = table_with_block(5);
        assert!(t.remove(gone).is_some());
        let mut db = MockDB::from_table(t);
        assert_eq!(
            db.read_last_block(),
            Err(Error::Temporary { error: "Essential data couldn't be read from the DB".to_owned() })
        );
    }
}

#[test]
fn height_without_block_data_is_temporary_error() {
    let mut t = Table::new();
    t.insert("height".to_owned(), encode_u64(3));
    t.insert("next_epoch_min_start_height".to_owned(), encode_u64(4));
    t.insert("next_epoch_min_start_time".to_owned(), encode_time(DateTimeUtc { secs: 0, nanos: 0 }));
    let mut db = MockDB::from_table(t);
    assert_eq!(
        db.read_last_block(),
        Err(Error::Temporary { error: "Essential data couldn't be read from the DB".to_owned() })
    );
}

#[test]
fn missing_schedule_is_temporary_error() {
    let missing =
        Err(Error::Temporary { error: "Essential data couldn't be read from the DB".to_owned() });
    let mut t = table_with_block(5);
    t.remove("next_epoch_min_start_height");
    let mut db = MockDB::from_table(t);
    assert_eq!(db.read_last_block(), missing);

    let mut t = table_with_block(5);
    t.remove("next_epoch_min_start_time");
    let mut db = MockDB::from_table(t);
    assert_eq!(db.read_last_block(), missing);

    let mut t = Table::new();
    t.insert("height".to_owned(), encode_u64(5));
    let mut db = MockDB::from_table(t);
    assert_eq!(db.read_last_block(), missing);
}

#[test]
fn undecodable_height_comes_before_missing_schedule() {
    let mut t = Table::new();
    t.insert("height".to_owned(), vec![5]);
    let mut db = MockDB::from_table(t);
    assert_eq!(db.read_last_block(), Err(Error::CodingError(CodingError::UnexpectedEnd)));
}

#[test]
fn missing_height_reads_as_no_block() {
    let mut t = table_with_block(5);
    t.remove("height");
    let mut db = MockDB::from_table(t);
    assert_eq!(db.read_last_block(), Ok(None));
}

#[test]
fn undecodable_height_is_coding_error() {
    let mut t = table_with_block(5);
    t.insert("height".to_owned(), vec![5]);
    let mut db = MockDB::from_table(t);
    assert_eq!(db.read_last_block(), Err(Error::CodingError(CodingError::UnexpectedEnd)));
}

#[test]
fn undecodable_schedule_is_coding_error() {
    let mut t = table_with_block(5);
    t.insert("next_epoch_min_start_height".to_owned(), vec![0; 9]);
    let mut db = MockDB::from_table(t);
    assert_eq!(db.read_last_block(), Err(Error::CodingError(CodingError::TrailingBytes)));

    let mut t = table_with_block(5);
    t.insert("next_epoch_min_start_time".to_owned(), vec![0; 8]);
    let mut db = MockDB::from_table(t);
    assert_eq!(db.read_last_block(), Err(Error::CodingError(CodingError::UnexpectedEnd)));
}

#[test]
fn undecodable_field_is_coding_error() {
    let mut t = table_with_block(5);
    t.insert("5/epoch".to_owned(), vec![1, 2, 3]);
    let mut db = MockDB::from_table(t);
    assert_eq!(db.read_last_block(), Err(Error::CodingError(CodingError::UnexpectedEnd)));

    let mut t = table_with_block(5);
    t.insert("5/tree/root".to_owned(), vec![0, 0, 0, 0, 0, 0, 0, 0, 1]);
    let mut db = MockDB::from_table(t);
    assert_eq!(db.read_last_block(), Err(Error::CodingError(CodingError::TrailingBytes)));
}

#[test]
fn first_failure_in_key_order_wins() {
    // "5/epoch" comes before "5/unexpected": its decoding error is met first.
    let mut t = table_with_block(5);
    t.insert("5/epoch".to_owned(), vec![1]);
    t.insert("5/unexpected".to_owned(), vec![1]);
    let mut db = MockDB::from_table(t);
    assert_eq!(db.read_last_block(), Err(Error::CodingError(CodingError::UnexpectedEnd)));

    // "5/a" comes before "5/epoch": the unknown key is met first.
    let mut t = table_with_block(5);
    t.insert("5/epoch".to_owned(), vec![1]);
    t.insert("5/a".to_owned(), vec![1]);
    let mut db = MockDB::from_table(t);
    assert_eq!(db.read_last_block(), Err(Error::UnknownKey { key: "5/a".to_owned() }));
}

#[test]
fn write_then_read_at_every_height() {
    for height in [0, 1, 9, 10, 19, 99, 100, 999, 1_000_000, u64::MAX - 1, u64::MAX] {
        let mut db = MockDB::open("");
        let mut state = block(5);
        state.height = BlockHeight(height);
        db.write_block(state.clone()).unwrap();
        assert_eq!(db.read_last_block(), Ok(Some(as_read(&state))));
    }
}

#[test]
fn write_then_read_over_a_history() {
    let mut db = MockDB::open("");
    for height in 1..=120 {
        let mut state = block(5);
        state.height = BlockHeight(height);
        state.epoch = Epoch(height / 10);
        state.hash = BlockHash(vec![height as u8]);
        db.write_subspace_val(BlockHeight(height), &key("a/b"), &[height as u8]).unwrap();
        db.write_block(state.clone()).unwrap();
        assert_eq!(db.read_last_block(), Ok(Some(as_read(&state))));
    }
    assert_eq!(db.table().len(), 120 * 6 + 3 + 1);
}

#[test]
fn heights_two_and_nineteen() {
    let mut db = MockDB::open("");
    let mut two = block(2);
    two.epoch = Epoch(0);
    two.hash = BlockHash(vec![2; 32]);
    db.write_block(two).unwrap();
    let mut nineteen = block(19);
    nineteen.epoch = Epoch(1);
    nineteen.hash = BlockHash(vec![19; 32]);
    db.write_block(nineteen.clone()).unwrap();
    let read = db.read_last_block().unwrap().unwrap();
    assert_eq!(read.height, BlockHeight(19));
    assert_eq!(read.epoch, Epoch(1));
    assert_eq!(read.hash, BlockHash(vec![19; 32]));
    assert_eq!(read, as_read(&nineteen));
}

#[test]
fn missing_field_is_not_taken_from_another_height() {
    let mut db = MockDB::open("");
    db.write_block(block(2)).unwrap();
    db.write_block(block(19)).unwrap();
    let mut t = db.table().clone();
    assert!(t.remove("19/epoch").is_some());
    let mut db = MockDB::from_table(t);
    assert_eq!(
        db.read_last_block(),
        Err(Error::Temporary { error: "Essential data couldn't be read from the DB".to_owned() })
    );
}

#[test]
fn unknown_key_at_height_nine() {
    for extra in ["9/foo", "9/hash/extra", "9/tree", "9/tree/leaf", "9/tree/root/extra", "9/"] {
        let mut t = table_with_block(9);
        t.insert(extra.to_owned(), encode_bytes(&[]));
        let mut db = MockDB::from_table(t);
        assert_eq!(db.read_last_block(), Err(Error::UnknownKey { key: extra.to_owned() }));
    }
}

#[test]
fn undecodable_field_at_height_nine() {
    let mut t = table_with_block(9);
    t.insert("9/epoch".to_owned(), vec![1, 2, 3]);
    let mut db = MockDB::from_table(t);
    assert_eq!(db.read_last_block(), Err(Error::CodingError(CodingError::UnexpectedEnd)));
}

#[test]
fn missing_field_at_height_nine() {
    let mut t = table_with_block(9);
    assert!(t.remove("9/address_gen").is_some());
    let mut db = MockDB::from_table(t);
    assert_eq!(
        db.read_last_block(),
        Err(Error::Temporary { error: "Essential data couldn't be read from the DB".to_owned() })
    );
}

#[test]
fn unknown_key_at_greatest_height() {
    let mut db = MockDB::open("");
    let mut state = block(0);
    state.height = BlockHeight(u64::MAX);
    db.write_block(state.clone()).unwrap();
    assert_eq!(db.read_last_block(), Ok(Some(as_read(&state))));
    let mut t = db.table().clone();
    t.insert("18446744073709551615/x".to_owned(), vec![]);
    let mut db = MockDB::from_table(t);
    assert_eq!(
        db.read_last_block(),
        Err(Error::UnknownKey { key: "18446744073709551615/x".to_owned() })
    );
}

#[test]
fn unknown_key_error_holds_the_key() {
    assert_eq!(unknown_key_error("5/x"), Err(Error::UnknownKey { key: "5/x".to_owned() }));
}

#[test]
fn classify_keys() {
    assert_eq!(classify("5/tree/root"), Some(BlockField::Root));
    assert_eq!(classify("5/tree/store"), Some(BlockField::Store));
    assert_eq!(classify("5/hash"), Some(BlockField::Hash));
    assert_eq!(classify("5/epoch"), Some(BlockField::Epoch));
    assert_eq!(classify("5/pred_epochs"), Some(BlockField::PredEpochs));
    assert_eq!(classify("5/address_gen"), Some(BlockField::AddressGen));
    assert_eq!(classify("anything/hash"), Some(BlockField::Hash));
    assert_eq!(classify("/hash"), Some(BlockField::Hash));
    assert_eq!(classify("hash"), None);
    assert_eq!(classify("5/tree"), None);
    assert_eq!(classify("5/tree/"), None);
    assert_eq!(classify("5/tree/root/x"), None);
    assert_eq!(classify("5/"), None);
    assert_eq!(classify(""), None);
}

#[test]
fn key_strings() {
    assert_eq!(height_prefix_string(BlockHeight(12)), "12/");
    assert_eq!(block_key_string(BlockHeight(12), BlockField::Root), Ok("12/tree/root".to_owned()));
    assert_eq!(block_key_string(BlockHeight(12), BlockField::Store), Ok("12/tree/store".to_owned()));
    assert_eq!(block_key_string(BlockHeight(0), BlockField::Hash), Ok("0/hash".to_owned()));
    assert_eq!(block_key_string(BlockHeight(1), BlockField::Epoch), Ok("1/epoch".to_owned()));
    assert_eq!(
        block_key_string(BlockHeight(1), BlockField::PredEpochs),
        Ok("1/pred_epochs".to_owned())
    );
    assert_eq!(
        block_key_string(BlockHeight(1), BlockField::AddressGen),
        Ok("1/address_gen".to_owned())
    );
    assert_eq!(subspace_key_string(&key("a/b")), Ok("subspace/a/b".to_owned()));
}

#[test]
fn subspace_read_of_absent_key() {
    let db = MockDB::open("");
    assert_eq!(db.read_subspace_val(&key("a")), Ok(None));
}

#[test]
fn subspace_upsert_delta() {
    let mut db = MockDB::open("");
    let k = key("acc/balance");
    assert_eq!(db.write_subspace_val(BlockHeight(1), &k, &[1, 2, 3, 4, 5]), Ok(5));
    assert_eq!(db.read_subspace_val(&k), Ok(Some(vec![1, 2, 3, 4, 5])));
    assert_eq!(db.write_subspace_val(BlockHeight(1), &k, &[9, 9]), Ok(-3));
    assert_eq!(db.read_subspace_val(&k), Ok(Some(vec![9, 9])));
    assert_eq!(db.write_subspace_val(BlockHeight(2), &k, &[1, 2, 3, 4, 5, 6, 7, 8]), Ok(6));
    assert_eq!(db.write_subspace_val(BlockHeight(2), &k, &[0; 8]), Ok(0));
    assert_eq!(db.table().get("subspace/acc/balance"), Some(&vec![0; 8]));
    assert_eq!(db.table().len(), 1);
}

#[test]
fn subspace_empty_value() {
    let mut db = MockDB::open("");
    let k = key("a");
    assert_eq!(db.write_subspace_val(BlockHeight(1), &k, &[]), Ok(0));
    assert_eq!(db.read_subspace_val(&k), Ok(Some(vec![])));
    assert_eq!(db.delete_subspace_val(BlockHeight(1), &k), Ok(0));
    assert_eq!(db.read_subspace_val(&k), Ok(None));
}

#[test]
fn subspace_delete_accounting() {
    let mut db = MockDB::open("");
    let k = key("a/b");
    assert_eq!(db.delete_subspace_val(BlockHeight(1), &k), Ok(0));
    db.write_subspace_val(BlockHeight(1), &k, &[7; 11]).unwrap();
    assert_eq!(db.delete_subspace_val(BlockHeight(1), &k), Ok(11));
    assert_eq!(db.read_subspace_val(&k), Ok(None));
    assert_eq!(db.delete_subspace_val(BlockHeight(1), &k), Ok(0));
    assert_eq!(db.table().len(), 0);
}

#[test]
fn subspace_keys_do_not_collide() {
    let mut db = MockDB::open("");
    db.write_subspace_val(BlockHeight(1), &key("ab/c"), &[1]).unwrap();
    db.write_subspace_val(BlockHeight(1), &key("a/bc"), &[2]).unwrap();
    db.write_subspace_val(BlockHeight(1), &key("height"), &[3]).unwrap();
    assert_eq!(db.read_subspace_val(&key("ab/c")), Ok(Some(vec![1])));
    assert_eq!(db.read_subspace_val(&key("a/bc")), Ok(Some(vec![2])));
    assert_eq!(db.read_subspace_val(&key("height")), Ok(Some(vec![3])));
    assert_eq!(db.read_last_block(), Ok(None));
}

#[test]
fn subspace_survives_blocks() {
    let mut db = MockDB::open("");
    db.write_subspace_val(BlockHeight(5), &key("a"), &[1]).unwrap();
    db.write_block(block(5)).unwrap();
    db.write_block(block(6)).unwrap();
    assert_eq!(db.read_subspace_val(&key("a")), Ok(Some(vec![1])));
    assert_eq!(db.read_last_block(), Ok(Some(as_read(&block(6)))));
}

#[test]
fn subspace_writes_do_not_disturb_the_block() {
    let mut db = MockDB::open("");
    db.write_block(block(5)).unwrap();
    let expected = Ok(Some(as_read(&block(5))));
    assert_eq!(db.read_last_block(), expected);
    db.write_subspace_val(BlockHeight(5), &key("5/hash"), &[1]).unwrap();
    db.write_subspace_val(BlockHeight(5), &key("tree/root"), &[2]).unwrap();
    assert_eq!(db.read_last_block(), expected);
    db.write_subspace_val(BlockHeight(5), &key("5/hash"), &[1, 2, 3]).unwrap();
    assert_eq!(db.read_last_block(), expected);
    db.delete_subspace_val(BlockHeight(5), &key("5/hash")).unwrap();
    assert_eq!(db.read_last_block(), expected);
    assert_eq!(db.read_subspace_val(&key("tree/root")), Ok(Some(vec![2])));
}

#[test]
fn default_is_empty() {
    let mut db = MockDB::default();
    assert_eq!(db.table().len(), 0);
    assert_eq!(db.read_last_block(), Ok(None));
}

#[test]
fn size_deltas() {
    assert_eq!(size_delta(0, 0), 0);
    assert_eq!(size_delta(10, 3), 7);
    assert_eq!(size_delta(3, 10), -7);
    assert_eq!(size_delta(usize::MAX, 0), i64::MAX);
    assert_eq!(size_delta(0, usize::MAX), i64::MIN);
    assert_eq!(size_delta(0, i64::MAX as usize), -i64::MAX);
    assert_eq!(size_delta(i64::MAX as usize, 0), i64::MAX);
}

#[test]
fn batch_operations_apply_at_once() {
    let mut db = MockDB::open("");
    let mut batch = MockDB::batch();
    let k = key("a");
    assert_eq!(db.batch_write_subspace_val(&mut batch, BlockHeight(1), &k, &[1, 2, 3]), Ok(3));
    assert_eq!(db.read_subspace_val(&k), Ok(Some(vec![1, 2, 3])));
    assert_eq!(db.batch_write_subspace_val(&mut batch, BlockHeight(1), &k, &[1]), Ok(-2));
    assert_eq!(db.batch_delete_subspace_val(&mut batch, BlockHeight(1), &k), Ok(1));
    assert_eq!(db.batch_delete_subspace_val(&mut batch, BlockHeight(1), &k), Ok(0));
    assert_eq!(db.batch_write_subspace_val(&mut batch, BlockHeight(1), &k, &[4, 5]), Ok(2));
    assert_eq!(db.exec_batch(batch), Ok(()));
    assert_eq!(db.read_subspace_val(&k), Ok(Some(vec![4, 5])));
}

#[test]
fn write_batch_keeps_nothing() {
    let mut db = MockDB::open("");
    let mut batch = MockDBWriteBatch::default();
    batch.put("subspace/a", [1u8, 2]);
    batch.delete("subspace/b");
    assert_eq!(db.exec_batch(batch), Ok(()));
    assert_eq!(db.table().len(), 0);
}

#[test]
fn prefix_iteration_gas() {
    let mut db = MockDB::open("");
    db.write_subspace_val(BlockHeight(1), &key("a/y"), &[2, 2]).unwrap();
    db.write_subspace_val(BlockHeight(1), &key("a/x"), &[1]).unwrap();
    // The keys come back as the application wrote them, in order; the gas is
    // the bytes of the key plus the bytes of the value.
    let mut it = db.iter_prefix(&key("a"));
    assert_eq!(it.next(), Some(("a/x".to_owned(), vec![1], 4)));
    assert_eq!(it.next(), Some(("a/y".to_owned(), vec![2, 2], 5)));
    assert_eq!(it.next(), None);
    assert_eq!(it.next(), None);
    // With the whole of "subspace/a/" stripped the keys are "x" and "y".
    let inner = db.iter_prefix(&key("a")).iter;
    let mut it = PrefixIterator::new(inner, "subspace/a/".to_owned());
    assert_eq!(it.next(), Some(("x".to_owned(), vec![1], 2)));
    assert_eq!(it.next(), Some(("y".to_owned(), vec![2, 2], 3)));
    assert_eq!(it.next(), None);
}

#[test]
fn prefix_iteration_is_ordered_and_filtered() {
    let mut db = MockDB::open("");
    db.write_block(block(5)).unwrap();
    for (k, v) in [("b/1", vec![1u8]), ("a/2", vec![2]), ("a/10", vec![3]), ("ab", vec![4]), ("c", vec![5])] {
        db.write_subspace_val(BlockHeight(5), &key(k), &v).unwrap();
    }
    let mut it = db.iter_prefix(&key("a"));
    let mut seen = Vec::new();
    while let Some(item) = it.next() {
        seen.push(item);
    }
    assert_eq!(
        seen,
        vec![
            ("a/10".to_owned(), vec![3], 5),
            ("a/2".to_owned(), vec![2], 4),
            ("ab".to_owned(), vec![4], 3),
        ]
    );
}

#[test]
fn prefix_iteration_of_empty_range() {
    let mut db = MockDB::open("");
    db.write_subspace_val(BlockHeight(1), &key("a"), &[1]).unwrap();
    let mut it = db.iter_prefix(&key("b"));
    assert_eq!(it.next(), None);
    let mut it = MockDB::open("").iter_prefix(&key("a"));
    assert_eq!(it.next(), None);
}

#[test]
fn prefix_iteration_is_a_snapshot() {
    let mut db = MockDB::open("");
    db.write_subspace_val(BlockHeight(1), &key("a/x"), &[1]).unwrap();
    let mut it = db.iter_prefix(&key("a"));
    db.write_subspace_val(BlockHeight(1), &key("a/y"), &[2]).unwrap();
    db.delete_subspace_val(BlockHeight(1), &key("a/x")).unwrap();
    assert_eq!(it.next(), Some(("a/x".to_owned(), vec![1], 4)));
    assert_eq!(it.next(), None);
}

#[test]
fn gas_counts_bytes_not_characters() {
    let mut db = MockDB::open("");
    db.write_subspace_val(BlockHeight(1), &key("é/日"), &[0; 10]).unwrap();
    let mut it = db.iter_prefix(&key("é"));
    // "é/日" is 2 + 1 + 3 bytes
    assert_eq!(it.next(), Some(("é/日".to_owned(), vec![0; 10], 16)));
    assert_eq!(it.next(), None);
}

#[test]
fn prefix_iterator_skips_keys_without_the_db_prefix() {
    let mut db = MockDB::open("");
    db.write_subspace_val(BlockHeight(1), &key("a/x"), &[1]).unwrap();
    db.write_subspace_val(BlockHeight(1), &key("a/y"), &[2, 3]).unwrap();
    let inner = db.iter_prefix(&key("a")).iter;
    // none of the keys begins with "other/": all are passed over
    let mut it = PrefixIterator::new(inner, "other/".to_owned());
    assert_eq!(it.next(), None);

    let inner = db.iter_prefix(&key("a")).iter;
    let mut it = PrefixIterator::new(inner, "subspace/a/".to_owned());
    assert_eq!(it.next(), Some(("x".to_owned(), vec![1], 2)));
    assert_eq!(it.next(), Some(("y".to_owned(), vec![2, 3], 3)));
    assert_eq!(it.next(), None);
}

#[test]
fn base_iterator_is_ascending_and_final() {
    let mut db = MockDB::open("");
    for k in ["a/9", "a/10", "a/2", "ab", "b", "a"] {
        db.write_subspace_val(BlockHeight(1), &key(k), &[1]).unwrap();
    }
    let mut inner = db.iter_prefix(&key("a")).iter;
    let mut keys: Vec<String> = Vec::new();
    while let Some((k, _)) = inner.next() {
        keys.push(k);
    }
    assert_eq!(keys, vec!["subspace/a", "subspace/a/10", "subspace/a/2", "subspace/a/9", "subspace/ab"]);
    for i in 1..keys.len() {
        assert!(keys[i - 1] < keys[i]);
    }
    assert_eq!(inner.next(), None);
    assert_eq!(inner.next(), None);
}

#[test]
fn base_iterator_yields_full_keys() {
    let mut db = MockDB::open("");
    db.write_subspace_val(BlockHeight(1), &key("a/x"), &[1]).unwrap();
    db.write_subspace_val(BlockHeight(1), &key("b"), &[2]).unwrap();
    let mut inner = db.iter_prefix(&key("a")).iter;
    assert_eq!(inner.next(), Some(("subspace/a/x".to_owned(), vec![1])));
    assert_eq!(inner.next(), None);
}
