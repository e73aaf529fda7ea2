use mpcnet::provider::check_share_owner;
use mpcnet::provider::execute_get_share;
use mpcnet::provider::execute_refresh_share;
use mpcnet::provider::execute_register_share;
use mpcnet::provider::remote_providers;
use mpcnet::repository::HashMapShareEntryDao;
use mpcnet::repository::ShareEntry;
use mpcnet::repository::ShareEntryDaoTrait;
use mpcnet::repository::StoreError;
use mpcnet::sss::combine_shares;
use mpcnet::sss::generate_refresh_key;
use mpcnet::sss::split_secret;
use mpcnet::sss::SharesMap;

fn owner_a() -> Vec<u8> {
    vec![0xaa, 1, 2, 3]
}

fn sender_b() -> Vec<u8> {
    vec![0xbb, 4, 5, 6]
}

#[test]
fn test_get_share_authorization() {
    // register (key="k", share=(1, [9,9,9]), owner=A)
    let mut dao = HashMapShareEntryDao::new();
    let reply = execute_register_share("k", &owner_a(), (1, vec![9, 9, 9]), 2, &mut dao);
    assert!(reply.success);

    // a get from B is denied and reveals nothing
    let denied = execute_get_share("k", &sender_b(), &dao);
    assert!(!denied.success);
    assert_eq!(denied.share, (0, vec![]));

    // a get from A hands the share out
    let granted = execute_get_share("k", &owner_a(), &dao);
    assert!(granted.success);
    assert_eq!(granted.share, (1, vec![9, 9, 9]));

    // a get for an unknown key is denied with the empty share
    let missing = execute_get_share("other", &owner_a(), &dao);
    assert!(!missing.success);
    assert_eq!(missing.share, (0, vec![]));
}

#[test]
fn test_register_share_foreign_owner_denied() {
    let mut dao = HashMapShareEntryDao::new();
    assert!(execute_register_share("k", &owner_a(), (1, vec![7]), 2, &mut dao).success);

    // B may not overwrite A's entry
    let denied = execute_register_share("k", &sender_b(), (2, vec![8]), 2, &mut dao);
    assert!(!denied.success);
    let still = execute_get_share("k", &owner_a(), &dao);
    assert!(still.success);
    assert_eq!(still.share, (1, vec![7]));

    // A may re-register its own key
    let replaced = execute_register_share("k", &owner_a(), (3, vec![9]), 2, &mut dao);
    assert!(replaced.success);
    let now = execute_get_share("k", &owner_a(), &dao);
    assert_eq!(now.share, (3, vec![9]));
}

#[test]
fn test_refresh_share_requires_owner() {
    let mut dao = HashMapShareEntryDao::new();
    assert!(execute_register_share("k", &owner_a(), (1, vec![5, 6]), 2, &mut dao).success);
    let refresh_key = generate_refresh_key(2, 2).unwrap();

    // a network request from B is rejected and changes nothing
    let denied = execute_refresh_share("k", &sender_b(), &refresh_key, true, &mut dao).unwrap();
    assert!(!denied.success);
    assert_eq!(execute_get_share("k", &owner_a(), &dao).share, (1, vec![5, 6]));

    // an unknown key fails the request
    assert_eq!(
        execute_refresh_share("nope", &owner_a(), &refresh_key, true, &mut dao).unwrap_err(),
        StoreError::KeyNotFound
    );

    // the owner's request is applied
    let granted = execute_refresh_share("k", &owner_a(), &refresh_key, true, &mut dao).unwrap();
    assert!(granted.success);
}

#[test]
fn test_coordinated_refresh_two_providers() {
    // two provider nodes each hold one share for the same key with t=2;
    // the owner generates one refresh key and sends it to both
    let secret = b"dormouse";
    let shares_map = split_secret(secret, 2, 2).unwrap();
    let y1 = shares_map.get(1).unwrap();
    let y2 = shares_map.get(2).unwrap();

    let mut node1 = HashMapShareEntryDao::new();
    let mut node2 = HashMapShareEntryDao::new();
    assert!(execute_register_share("key", &owner_a(), (1, y1), 2, &mut node1).success);
    assert!(execute_register_share("key", &owner_a(), (2, y2), 2, &mut node2).success);

    let refresh_key = generate_refresh_key(2, secret.len()).unwrap();
    assert!(execute_refresh_share("key", &owner_a(), &refresh_key, true, &mut node1)
        .unwrap()
        .success);
    assert!(execute_refresh_share("key", &owner_a(), &refresh_key, true, &mut node2)
        .unwrap()
        .success);

    // the owner collects the refreshed shares and reconstructs
    let s1 = execute_get_share("key", &owner_a(), &node1);
    let s2 = execute_get_share("key", &owner_a(), &node2);
    assert!(s1.success && s2.success);
    let mut collected = SharesMap::new();
    assert!(collected.insert(s1.share.0, s1.share.1));
    assert!(collected.insert(s2.share.0, s2.share.1));
    assert_eq!(combine_shares(&collected).unwrap(), secret.to_vec());
}

#[test]
fn test_local_refresh_skips_owner_check() {
    // the scheduler refreshes locally without a reply channel: no owner check
    let mut dao = HashMapShareEntryDao::new();
    assert!(execute_register_share("k", &owner_a(), (1, vec![5, 6]), 2, &mut dao).success);
    let refresh_key = generate_refresh_key(2, 2).unwrap();
    let applied = execute_refresh_share("k", &sender_b(), &refresh_key, false, &mut dao).unwrap();
    assert!(applied.success);
}

#[test]
fn test_check_share_owner_compares_bytes() {
    let entry = ShareEntry {
        share: (1, vec![1]),
        sender: owner_a(),
        threshold: 2,
    };
    assert!(check_share_owner(&entry, &owner_a()));
    assert!(!check_share_owner(&entry, &sender_b()));
}

#[test]
fn test_remote_providers_drops_local_peer() {
    let local = owner_a();
    let providers = vec![sender_b(), owner_a(), vec![9, 9]];
    let fanout = remote_providers(providers, &local);
    assert_eq!(fanout, vec![sender_b(), vec![9, 9]]);
}

#[test]
fn test_store_operations() {
    let mut dao = HashMapShareEntryDao::new();
    let entry = ShareEntry {
        share: (1, vec![2, 3, 4]),
        sender: vec![5, 6, 7],
        threshold: 3,
    };
    // update of a missing key is an error
    assert_eq!(dao.update("a", &entry).unwrap_err(), StoreError::KeyNotFound);
    // insert then get
    dao.insert("a", &entry).unwrap();
    let back = dao.get("a").unwrap().unwrap();
    assert_eq!(back.share, (1, vec![2, 3, 4]));
    assert_eq!(back.sender, vec![5, 6, 7]);
    assert_eq!(back.threshold, 3);
    // update replaces
    let entry2 = ShareEntry {
        share: (2, vec![8]),
        sender: vec![5, 6, 7],
        threshold: 3,
    };
    dao.update("a", &entry2).unwrap();
    assert_eq!(dao.get("a").unwrap().unwrap().share, (2, vec![8]));
    // get_all sees the single entry
    let all = dao.get_all().unwrap();
    assert_eq!(all.len(), 1);
    assert_eq!(all[0].0, "a".to_string());
    // delete removes it
    dao.delete("a").unwrap();
    assert!(dao.get("a").unwrap().is_none());
}

#[test]
fn test_refresh_share_rejects_mismatched_key() {
    let mut dao = HashMapShareEntryDao::new();
    assert!(execute_register_share("k", &owner_a(), (1, vec![5, 6]), 2, &mut dao).success);

    // a refresh key of the wrong length is an invalid parameter:
    // the reply is a failure and the stored share stays untouched
    let wrong = generate_refresh_key(2, 3).unwrap();
    let denied = execute_refresh_share("k", &owner_a(), &wrong, true, &mut dao).unwrap();
    assert!(!denied.success);
    assert_eq!(execute_get_share("k", &owner_a(), &dao).share, (1, vec![5, 6]));

    // an empty refresh key fails the same way, also on a local request
    let empty = generate_refresh_key(2, 0).unwrap();
    let denied = execute_refresh_share("k", &owner_a(), &empty, false, &mut dao).unwrap();
    assert!(!denied.success);
    assert_eq!(execute_get_share("k", &owner_a(), &dao).share, (1, vec![5, 6]));
}

#[test]
fn test_register_rejects_invalid_entries() {
    let mut dao = HashMapShareEntryDao::new();
    // a share index of zero
    assert!(!execute_register_share("k", &owner_a(), (0, vec![1]), 2, &mut dao).success);
    // an empty share
    assert!(!execute_register_share("k", &owner_a(), (1, vec![]), 2, &mut dao).success);
    // a threshold below two
    assert!(!execute_register_share("k", &owner_a(), (1, vec![1]), 1, &mut dao).success);
    // none of them was stored
    assert!(!execute_get_share("k", &owner_a(), &dao).success);
    // a well-formed entry is accepted
    assert!(execute_register_share("k", &owner_a(), (1, vec![1]), 2, &mut dao).success);
}
