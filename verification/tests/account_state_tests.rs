use shared_mempool::account_address::AccountAddress;
use shared_mempool::account_state::{
    account_resource_path, account_resource_to_bytes, account_sent_event_path,
    decode_account_resource, new_block_event_path, AccountResource, AccountState, EventHandle,
    EventKey, StateError,
};
use shared_mempool::canonical::{decode_u64_le, encode_u128_le, encode_u32_le, encode_u64_le};
use shared_mempool::account_state::{
    configuration_resource_path, validator_config_resource_path, validator_set_path,
};

fn handle(count: u64, salt: u64, creator: u128) -> EventHandle {
    EventHandle {
        count,
        key: EventKey { salt, creator: AccountAddress::new(creator) },
    }
}

fn resource(seq: u64, creator: u128) -> AccountResource {
    AccountResource {
        sequence_number: seq,
        sent_events: handle(0, 2, creator),
        received_events: handle(0, 3, creator),
    }
}

#[test]
fn little_endian_codec_exact_bytes() {
    let mut out = Vec::new();
    encode_u64_le(&mut out, 0x0102_0304_0506_0708);
    assert_eq!(out, vec![8, 7, 6, 5, 4, 3, 2, 1]);
    assert_eq!(decode_u64_le(&out, 0), 0x0102_0304_0506_0708);
}

#[test]
fn map_insert_get_remove() {
    let mut state = AccountState::new();
    assert!(state.is_empty());
    assert_eq!(state.insert(vec![2], vec![20]), None);
    assert_eq!(state.insert(vec![1], vec![10]), None);
    assert!(!state.is_empty());
    assert_eq!(state.get(&vec![1]), Some(&vec![10]));
    assert_eq!(state.get(&vec![2]), Some(&vec![20]));
    assert_eq!(state.get(&vec![3]), None);
    // replacing returns the old bytes
    assert_eq!(state.insert(vec![1], vec![11]), Some(vec![10]));
    assert_eq!(state.get(&vec![1]), Some(&vec![11]));
    assert_eq!(state.remove(&vec![1]), Some(vec![11]));
    assert_eq!(state.get(&vec![1]), None);
    assert_eq!(state.remove(&vec![1]), None);
}

#[test]
fn iter_returns_records_in_key_order() {
    let mut state = AccountState::new();
    state.insert(vec![3, 1], vec![1]);
    state.insert(vec![2], vec![2]);
    state.insert(vec![3], vec![3]);
    let records = state.iter();
    let keys: Vec<Vec<u8>> = records.into_iter().map(|p| p.0).collect();
    assert_eq!(keys, vec![vec![2], vec![3], vec![3, 1]]);
}

#[test]
fn account_resource_round_trip_through_state() {
    let a = resource(42, 7);
    let bytes = account_resource_to_bytes(&a);
    assert_eq!(bytes.len(), 72);
    assert_eq!(decode_account_resource(&bytes), Some(a));

    let mut state = AccountState::new();
    state.insert(account_resource_path(), bytes);
    assert_eq!(state.get_account_resource(), Ok(Some(a)));
    assert_eq!(state.get_account_address(), Ok(Some(AccountAddress::new(7))));
}

#[test]
fn absent_resources_read_as_none() {
    let state = AccountState::new();
    assert_eq!(state.get_account_resource(), Ok(None));
    assert_eq!(state.get_account_address(), Ok(None));
    assert_eq!(state.get_configuration_resource(), Ok(None));
    assert_eq!(state.get_libra_timestamp_resource(), Ok(None));
    assert_eq!(state.get_libra_block_resource(), Ok(None));
    assert!(matches!(state.get_validator_config_resource(), Ok(None)));
    assert!(matches!(state.get_validator_set(), Ok(None)));
}

#[test]
fn malformed_resource_reads_as_error() {
    let mut state = AccountState::new();
    state.insert(account_resource_path(), vec![1, 2, 3]);
    assert_eq!(state.get_account_resource(), Err(StateError::MalformedResource));
    assert_eq!(state.get_account_address(), Err(StateError::MalformedResource));
}

#[test]
fn event_handle_lookup_by_query_path() {
    let a = resource(1, 9);
    let mut state = AccountState::new();
    state.insert(account_resource_path(), account_resource_to_bytes(&a));
    assert_eq!(
        state.get_event_handle_by_query_path(&account_sent_event_path()),
        Ok(Some(a.sent_events))
    );
    // the new-block handle lives in the block resource, which is absent here
    assert_eq!(state.get_event_handle_by_query_path(&new_block_event_path()), Ok(None));
    assert_eq!(
        state.get_event_handle_by_query_path(&vec![0xff]),
        Err(StateError::UnknownQueryPath)
    );
}

#[test]
fn configuration_resource_round_trip_through_state() {
    let mut blob = Vec::new();
    encode_u64_le(&mut blob, 12);
    encode_u64_le(&mut blob, 777);
    let mut state = AccountState::new();
    state.insert(configuration_resource_path(), blob);
    let c = state.get_configuration_resource().unwrap().unwrap();
    assert_eq!(c.epoch, 12);
    assert_eq!(c.last_reconfiguration_time, 777);
}

#[test]
fn validator_config_round_trip_through_state() {
    // length-prefixed key bytes
    let mut blob = Vec::new();
    encode_u32_le(&mut blob, 3);
    blob.extend_from_slice(&[0xaa, 0xbb, 0xcc]);
    let mut state = AccountState::new();
    state.insert(validator_config_resource_path(), blob);
    let v = state.get_validator_config_resource().unwrap().unwrap();
    assert_eq!(v.consensus_pubkey, vec![0xaa, 0xbb, 0xcc]);
    // a short blob is malformed
    state.insert(validator_config_resource_path(), vec![9, 0, 0, 0]);
    assert!(state.get_validator_config_resource().is_err());
}

#[test]
fn validator_set_round_trip_through_state() {
    // count-prefixed addresses
    let mut blob = Vec::new();
    encode_u32_le(&mut blob, 2);
    encode_u128_le(&mut blob, 11);
    encode_u128_le(&mut blob, 22);
    let mut state = AccountState::new();
    state.insert(validator_set_path(), blob);
    let set = state.get_validator_set().unwrap().unwrap();
    assert_eq!(set.validators.len(), 2);
    assert_eq!(set.validators[0].value, 11);
    assert_eq!(set.validators[1].value, 22);
}
