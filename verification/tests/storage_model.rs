use fuel_storage_model::EntityKind;
use fuel_storage_model::Error;
use fuel_storage_model::database::Database;
use fuel_storage_model::kv::IterDirection;
use fuel_storage_model::merkle::DenseMerkleMetadata;
use fuel_storage_model::merkle::SparseMerkleMetadata;
use fuel_storage_model::tables::CompressedCoin;
use fuel_storage_model::tables::Coins;
use fuel_storage_model::tables::Table;
use fuel_storage_model::tables::Transaction;
use fuel_storage_model::tables::Transactions;
use fuel_storage_model::types::Address;
use fuel_storage_model::types::Bytes32;
use fuel_storage_model::types::Nonce;
use fuel_storage_model::types::TransactionStatus;
use fuel_storage_model::types::TxPointer;
use fuel_storage_model::types::UtxoId;

fn word(last: u8) -> Vec<u8> {
    let mut v = vec![0u8; 31];
    v.push(last);
    v
}

fn utxo(tx_last: u8, index: u16) -> UtxoId {
    UtxoId {
        tx_id: Bytes32::new(word(tx_last)),
        output_index: index,
    }
}

#[test]
fn insert_then_get_returns_the_value() {
    let mut table: Table<Transactions> = Table::new();
    let id = Bytes32::new(word(7));
    let prev = table.insert(&id, Transaction { bytes: vec![1, 2, 3] });
    assert!(prev.is_none());
    let got = table.get(&id).expect("inserted key must be present");
    assert_eq!(got.bytes, vec![1, 2, 3]);
}

#[test]
fn insert_twice_returns_previous_and_get_sees_latest() {
    let mut table: Table<Coins> = Table::new();
    let key = utxo(9, 4);
    let first = table.insert(&key, CompressedCoin { bytes: vec![10] });
    assert!(first.is_none());
    let second = table.insert(&key, CompressedCoin { bytes: vec![20] });
    let replaced = second.expect("second insert must report the previous value");
    assert_eq!(replaced.bytes, vec![10]);
    let got = table.get(&key).expect("key must still be present");
    assert_eq!(got.bytes, vec![20]);
}

#[test]
fn get_of_absent_key_is_none_not_an_error() {
    let table: Table<Transactions> = Table::new();
    let id = Bytes32::new(word(42));
    assert!(table.get(&id).is_none());
}

#[test]
fn dense_metadata_default_is_the_fixed_empty_root() {
    let d = DenseMerkleMetadata::default();
    assert_eq!(d.version, 0);
    let expected: Vec<u8> = vec![
        0xe3, 0xb0, 0xc4, 0x42, 0x98, 0xfc, 0x1c, 0x14, 0x9a, 0xfb, 0xf4, 0xc8, 0x99, 0x6f, 0xb9,
        0x24, 0x27, 0xae, 0x41, 0xe4, 0x64, 0x9b, 0x93, 0x4c, 0xa4, 0x95, 0x99, 0x1b, 0x78, 0x52,
        0xb8, 0x55,
    ];
    assert_eq!(d.root.bytes, expected);
    let again = DenseMerkleMetadata::default();
    assert_eq!(again.root.bytes, d.root.bytes);
    assert_eq!(again.version, d.version);
}

#[test]
fn dense_metadata_version_counts_appended_leaves() {
    let d0 = DenseMerkleMetadata::default();
    let d1 = d0.with_appended_leaf(Bytes32::new(word(1)));
    let d2 = d1.with_appended_leaf(Bytes32::new(word(2)));
    let d3 = d2.with_appended_leaf(Bytes32::new(word(3)));
    assert_eq!(d1.version, 1);
    assert_eq!(d2.version, 2);
    assert_eq!(d3.version, 3);
    assert_eq!(d3.root.bytes, word(3));
}

#[test]
fn sparse_metadata_default_is_the_fixed_empty_root() {
    let s = SparseMerkleMetadata::default();
    assert_eq!(s.root.bytes, vec![0u8; 32]);
    let again = SparseMerkleMetadata::default();
    assert_eq!(again.root.bytes, s.root.bytes);
}

#[test]
fn tx_status_unknown_id_is_not_found() {
    let db = Database::new();
    let id = Bytes32::new(word(1));
    let r = db.tx_status(&id);
    assert_eq!(r, Err(Error::NotFound(EntityKind::TransactionId)));
}

#[test]
fn tx_status_after_update_returns_the_status() {
    let mut db = Database::new();
    let id = Bytes32::new(word(1));
    let status = TransactionStatus::Success { block_height: 9, time: 1234 };
    let prev = db.update_tx_status(&id, status).expect("update always succeeds");
    assert!(prev.is_none());
    assert_eq!(db.tx_status(&id), Ok(status));
}

#[test]
fn update_tx_status_overwrites_and_returns_previous() {
    let mut db = Database::new();
    let id = Bytes32::new(word(5));
    let submitted = TransactionStatus::Submitted { time: 1 };
    let failed = TransactionStatus::Failed { block_height: 3, time: 2 };
    db.update_tx_status(&id, submitted).expect("update always succeeds");
    let prev = db.update_tx_status(&id, failed).expect("update always succeeds");
    assert_eq!(prev, Some(submitted));
    assert_eq!(db.tx_status(&id), Ok(failed));
}

#[test]
fn view_at_any_height_is_unsupported() {
    let db = Database::new();
    for height in [0u32, 1, 7, u32::MAX] {
        match db.view_at(height) {
            Err(e) => assert_eq!(e, Error::Unsupported),
            Ok(_) => panic!("historical views must fail explicitly"),
        }
    }
}

#[test]
fn latest_view_pins_state_at_call_time() {
    let mut db = Database::new();
    let owner = Address::new(word(1));
    db.record_owned_coin(&owner, &utxo(1, 0));
    let view = db.latest_view();
    db.record_owned_coin(&owner, &utxo(2, 0));
    let before = view.database().owned_coins_ids(&owner, None, IterDirection::Forward);
    assert_eq!(before.len(), 1);
    assert_eq!(before[0].tx_id.bytes, word(1));
    let after = db.owned_coins_ids(&owner, None, IterDirection::Forward);
    assert_eq!(after.len(), 2);
}

#[test]
fn owned_coins_three_utxos_both_directions_and_cursor() {
    let mut db = Database::new();
    let owner = Address::new(word(0xaa));
    let u1 = utxo(1, 0);
    let u2 = utxo(2, 0);
    let u3 = utxo(2, 5);
    // Insert out of order; iteration must sort by UTXO id.
    db.record_owned_coin(&owner, &u3);
    db.record_owned_coin(&owner, &u1);
    db.record_owned_coin(&owner, &u2);

    let ascending = db.owned_coins_ids(&owner, None, IterDirection::Forward);
    assert_eq!(ascending.len(), 3);
    assert_eq!(ascending[0].tx_id.bytes, word(1));
    assert_eq!(ascending[0].output_index, 0);
    assert_eq!(ascending[1].tx_id.bytes, word(2));
    assert_eq!(ascending[1].output_index, 0);
    assert_eq!(ascending[2].tx_id.bytes, word(2));
    assert_eq!(ascending[2].output_index, 5);

    let after_u1 = db.owned_coins_ids(&owner, Some(&u1), IterDirection::Forward);
    assert_eq!(after_u1.len(), 2);
    assert_eq!(after_u1[0].tx_id.bytes, word(2));
    assert_eq!(after_u1[0].output_index, 0);
    assert_eq!(after_u1[1].output_index, 5);

    let descending = db.owned_coins_ids(&owner, None, IterDirection::Reverse);
    assert_eq!(descending.len(), 3);
    assert_eq!(descending[0].output_index, 5);
    assert_eq!(descending[1].tx_id.bytes, word(2));
    assert_eq!(descending[1].output_index, 0);
    assert_eq!(descending[2].tx_id.bytes, word(1));
}

#[test]
fn owned_coins_of_other_owner_are_not_visible() {
    let mut db = Database::new();
    let owner_a = Address::new(word(1));
    let owner_b = Address::new(word(2));
    db.record_owned_coin(&owner_a, &utxo(1, 0));
    let for_b = db.owned_coins_ids(&owner_b, None, IterDirection::Forward);
    assert!(for_b.is_empty());
}

#[test]
fn owned_transactions_follow_composite_key_order() {
    let mut db = Database::new();
    let owner = Address::new(word(3));
    let tx1 = Bytes32::new(word(11));
    let tx2 = Bytes32::new(word(12));
    let tx3 = Bytes32::new(word(13));
    db.record_tx_id_owner(&owner, 5, 0, &tx1).expect("record always succeeds");
    db.record_tx_id_owner(&owner, 5, 1, &tx2).expect("record always succeeds");
    db.record_tx_id_owner(&owner, 6, 0, &tx3).expect("record always succeeds");

    let all = db.owned_transactions_ids(owner.duplicate(), None, IterDirection::Forward);
    assert_eq!(all.len(), 3);
    assert_eq!(all[0].0, TxPointer { block_height: 5, tx_index: 0 });
    assert_eq!(all[0].1.bytes, word(11));
    assert_eq!(all[1].0, TxPointer { block_height: 5, tx_index: 1 });
    assert_eq!(all[1].1.bytes, word(12));
    assert_eq!(all[2].0, TxPointer { block_height: 6, tx_index: 0 });
    assert_eq!(all[2].1.bytes, word(13));

    let start = TxPointer { block_height: 5, tx_index: 0 };
    let rest = db.owned_transactions_ids(owner.duplicate(), Some(&start), IterDirection::Forward);
    assert_eq!(rest.len(), 2);
    assert_eq!(rest[0].1.bytes, word(12));
    assert_eq!(rest[1].1.bytes, word(13));

    let reverse = db.owned_transactions_ids(owner, None, IterDirection::Reverse);
    assert_eq!(reverse.len(), 3);
    assert_eq!(reverse[0].1.bytes, word(13));
    assert_eq!(reverse[2].1.bytes, word(11));
}

#[test]
fn record_tx_id_owner_overwrite_returns_previous_id() {
    let mut db = Database::new();
    let owner = Address::new(word(4));
    let tx1 = Bytes32::new(word(21));
    let tx2 = Bytes32::new(word(22));
    let first = db.record_tx_id_owner(&owner, 1, 0, &tx1).expect("record always succeeds");
    assert!(first.is_none());
    let second = db.record_tx_id_owner(&owner, 1, 0, &tx2).expect("record always succeeds");
    let prev = second.expect("same composite key must report the previous id");
    assert_eq!(prev.bytes, word(21));
    let all = db.owned_transactions_ids(owner, None, IterDirection::Forward);
    assert_eq!(all.len(), 1);
    assert_eq!(all[0].1.bytes, word(22));
}

#[test]
fn owned_messages_resume_yields_exact_suffix() {
    let mut db = Database::new();
    let owner = Address::new(word(9));
    let nonces: Vec<Nonce> = (1u8..=5).map(|b| Nonce::new(word(b))).collect();
    for n in &nonces {
        db.record_owned_message(&owner, n);
    }
    let all = db.owned_message_ids(&owner, None, IterDirection::Forward);
    assert_eq!(all.len(), 5);
    for (i, n) in all.iter().enumerate() {
        assert_eq!(n.bytes, word((i + 1) as u8));
    }
    // Resume after the second yielded nonce: exactly the remaining suffix.
    let resumed = db.owned_message_ids(&owner, Some(&all[1]), IterDirection::Forward);
    assert_eq!(resumed.len(), 3);
    assert_eq!(resumed[0].bytes, word(3));
    assert_eq!(resumed[1].bytes, word(4));
    assert_eq!(resumed[2].bytes, word(5));
    // Descending resume behaves symmetrically.
    let down = db.owned_message_ids(&owner, None, IterDirection::Reverse);
    assert_eq!(down[0].bytes, word(5));
    let down_rest = db.owned_message_ids(&owner, Some(&down[0]), IterDirection::Reverse);
    assert_eq!(down_rest.len(), 4);
    assert_eq!(down_rest[0].bytes, word(4));
    assert_eq!(down_rest[3].bytes, word(1));
}

#[test]
fn record_owned_message_reports_existing_pairs() {
    let mut db = Database::new();
    let owner = Address::new(word(6));
    let nonce = Nonce::new(word(7));
    assert!(!db.record_owned_message(&owner, &nonce));
    assert!(db.record_owned_message(&owner, &nonce));
    let all = db.owned_message_ids(&owner, None, IterDirection::Forward);
    assert_eq!(all.len(), 1);
}
