use dao_plug::registry::Address;
use dao_plug::registry::MemberEntry;
use dao_plug::registry::MembershipRegistry;
use dao_plug::registry::Plug;
use dao_plug::registry::RegistryError;
use dao_plug::registry::TokenId;
use dao_plug::registry::Weight;
use dao_plug::registry::ADDRESS_LEN;

fn addr(seed: u8) -> Address {
    Address::from_bytes(vec![seed; ADDRESS_LEN]).unwrap()
}

fn weight(bytes: &[u8]) -> Weight {
    Weight::from_bytes_be(bytes.to_vec())
}

fn entry(seed: u8, bytes: &[u8]) -> MemberEntry {
    MemberEntry { identity: addr(seed), weight: weight(bytes) }
}

fn members_of(plug: &MembershipRegistry) -> Vec<(Vec<u8>, Vec<u8>)> {
    plug.get_dao_members_view(None)
        .into_iter()
        .map(|e| (e.identity.bytes().clone(), e.weight.bytes_be().clone()))
        .collect()
}

#[test]
fn address_from_bytes_checks_length() {
    assert!(Address::from_bytes(vec![7u8; ADDRESS_LEN]).is_some());
    assert!(Address::from_bytes(vec![7u8; ADDRESS_LEN - 1]).is_none());
    assert!(Address::from_bytes(Vec::new()).is_none());
    let a = Address::from_bytes(vec![9u8; ADDRESS_LEN]).unwrap();
    assert_eq!(a.bytes(), &vec![9u8; ADDRESS_LEN]);
}

#[test]
fn address_matches_is_byte_equality() {
    assert!(addr(1).matches(&addr(1)));
    assert!(!addr(1).matches(&addr(2)));
}

#[test]
fn weight_keeps_its_bytes() {
    assert_eq!(weight(&[1, 0]).bytes_be(), &vec![1u8, 0]);
    assert!(Weight::zero().bytes_be().is_empty());
    assert_eq!(weight(&[]), Weight::zero());
}

#[test]
fn weights_are_stored_as_given() {
    // The weight is caller-trusted: bytes with a leading zero are neither
    // validated nor normalized.
    let owner = addr(1);
    let mut plug = MembershipRegistry::init(owner.clone());
    assert!(plug.register_members_snapshot_batch_endpoint(&owner, vec![entry(2, &[0, 5])]).is_ok());
    assert_eq!(members_of(&plug), vec![(vec![2u8; ADDRESS_LEN], vec![0u8, 5])]);
}

#[test]
fn default_zero_for_absent_key() {
    let plug = MembershipRegistry::init(addr(1));
    let looked = plug.get_dao_vote_weight_view(&addr(42), None);
    assert_eq!(looked, Weight::zero());
    // The lookup materializes nothing: the registry is still empty.
    assert!(plug.get_dao_members_view(None).is_empty());
}

#[test]
fn token_hint_is_ignored() {
    let owner = addr(1);
    let mut plug = MembershipRegistry::init(owner.clone());
    let r = plug.register_members_snapshot_batch_endpoint(&owner, vec![entry(2, &[5])]);
    assert!(r.is_ok());
    let hint = Some(TokenId { bytes: b"DAO-123456".to_vec() });
    assert_eq!(
        plug.get_dao_vote_weight_view(&addr(2), hint),
        plug.get_dao_vote_weight_view(&addr(2), None)
    );
    let hint = Some(TokenId { bytes: b"DAO-123456".to_vec() });
    assert_eq!(plug.get_dao_members_view(hint), plug.get_dao_members_view(None));
}

#[test]
fn last_write_wins_within_batch() {
    let owner = addr(1);
    let mut plug = MembershipRegistry::init(owner.clone());
    let r = plug
        .register_members_snapshot_batch_endpoint(&owner, vec![entry(2, &[1]), entry(2, &[2])]);
    assert!(r.is_ok());
    assert_eq!(plug.get_dao_vote_weight_view(&addr(2), None), weight(&[2]));
    // The identity appears once, with the later weight.
    assert_eq!(members_of(&plug), vec![(vec![2u8; ADDRESS_LEN], vec![2u8])]);
}

#[test]
fn batch_is_idempotent() {
    let owner = addr(1);
    let mut plug = MembershipRegistry::init(owner.clone());
    let batch = || vec![entry(2, &[10]), entry(3, &[20]), entry(2, &[30])];
    assert!(plug.register_members_snapshot_batch_endpoint(&owner, batch()).is_ok());
    let once = members_of(&plug);
    assert!(plug.register_members_snapshot_batch_endpoint(&owner, batch()).is_ok());
    assert_eq!(members_of(&plug), once);
}

#[test]
fn order_preserved_on_reupsert() {
    let owner = addr(1);
    let mut plug = MembershipRegistry::init(owner.clone());
    let r = plug.register_members_snapshot_batch_endpoint(
        &owner,
        vec![entry(10, &[1]), entry(11, &[2]), entry(12, &[3])],
    );
    assert!(r.is_ok());
    // Re-upserting the middle identity must not move its position.
    let r = plug.register_members_snapshot_batch_endpoint(&owner, vec![entry(11, &[9])]);
    assert!(r.is_ok());
    assert_eq!(
        members_of(&plug),
        vec![
            (vec![10u8; ADDRESS_LEN], vec![1u8]),
            (vec![11u8; ADDRESS_LEN], vec![9u8]),
            (vec![12u8; ADDRESS_LEN], vec![3u8]),
        ]
    );
}

#[test]
fn unauthorized_batch_rejected_without_change() {
    let owner = addr(1);
    let intruder = addr(2);
    let mut plug = MembershipRegistry::init(owner.clone());
    assert!(plug.register_members_snapshot_batch_endpoint(&owner, vec![entry(3, &[7])]).is_ok());
    let before = members_of(&plug);
    let r = plug.register_members_snapshot_batch_endpoint(&intruder, vec![entry(3, &[99])]);
    assert_eq!(r, Err(RegistryError::Unauthorized));
    assert_eq!(members_of(&plug), before);
    assert_eq!(plug.get_dao_vote_weight_view(&addr(3), None), weight(&[7]));
}

#[test]
fn empty_batch_changes_nothing() {
    let owner = addr(1);
    let mut plug = MembershipRegistry::init(owner.clone());
    assert!(plug.register_members_snapshot_batch_endpoint(&owner, vec![entry(2, &[1])]).is_ok());
    let before = members_of(&plug);
    assert!(plug.register_members_snapshot_batch_endpoint(&owner, Vec::new()).is_ok());
    assert_eq!(members_of(&plug), before);
}

#[test]
fn explicit_zero_weight_is_materialized() {
    let owner = addr(1);
    let mut plug = MembershipRegistry::init(owner.clone());
    let r = plug.register_members_snapshot_batch_endpoint(&owner, vec![entry(2, &[])]);
    assert!(r.is_ok());
    // The explicitly inserted zero-weight identity is enumerated...
    assert_eq!(members_of(&plug), vec![(vec![2u8; ADDRESS_LEN], Vec::new())]);
    // ...and reads as zero, just like an absent one does.
    assert_eq!(plug.get_dao_vote_weight_view(&addr(2), None), Weight::zero());
    assert_eq!(plug.get_dao_vote_weight_view(&addr(3), None), Weight::zero());
}

#[test]
fn round_trip_enumeration_matches_latest_upserts() {
    let owner = addr(1);
    let mut plug = MembershipRegistry::init(owner.clone());
    let r = plug.register_members_snapshot_batch_endpoint(
        &owner,
        vec![entry(5, &[1]), entry(6, &[1, 0]), entry(7, &[3])],
    );
    assert!(r.is_ok());
    let r = plug
        .register_members_snapshot_batch_endpoint(&owner, vec![entry(6, &[2, 1]), entry(8, &[4])]);
    assert!(r.is_ok());
    // Each enumerated pair carries the most recently upserted weight for its
    // identity, and no identity that was never upserted appears.
    assert_eq!(
        members_of(&plug),
        vec![
            (vec![5u8; ADDRESS_LEN], vec![1u8]),
            (vec![6u8; ADDRESS_LEN], vec![2u8, 1]),
            (vec![7u8; ADDRESS_LEN], vec![3u8]),
            (vec![8u8; ADDRESS_LEN], vec![4u8]),
        ]
    );
}

#[test]
fn owner_snapshot_scenario() {
    let owner = addr(1);
    let addr1 = addr(21);
    let addr2 = addr(22);
    let mut plug = MembershipRegistry::init(owner.clone());
    let r = plug.register_members_snapshot_batch_endpoint(
        &owner,
        vec![
            MemberEntry { identity: addr1.clone(), weight: weight(&[100]) },
            MemberEntry { identity: addr2.clone(), weight: weight(&[50]) },
        ],
    );
    assert!(r.is_ok());
    assert_eq!(plug.get_dao_vote_weight_view(&addr1, None), weight(&[100]));
    assert_eq!(
        members_of(&plug),
        vec![
            (addr1.bytes().clone(), vec![100u8]),
            (addr2.bytes().clone(), vec![50u8]),
        ]
    );
    let intruder = addr(33);
    let r = plug.register_members_snapshot_batch_endpoint(
        &intruder,
        vec![MemberEntry { identity: addr1.clone(), weight: weight(&[0xff, 0xff]) }],
    );
    assert_eq!(r, Err(RegistryError::Unauthorized));
    assert_eq!(plug.get_dao_vote_weight_view(&addr1, None), weight(&[100]));
}

#[test]
fn owner_is_recorded_at_init() {
    let owner = addr(4);
    let plug = MembershipRegistry::init(owner.clone());
    assert!(plug.owner().matches(&owner));
    assert_eq!(plug.owner(), &owner);
}
