use mpcnet::sss::combine_shares;
use mpcnet::sss::generate_refresh_key;
use mpcnet::sss::refresh_share;
use mpcnet::sss::refresh_shares;
use mpcnet::sss::split_secret;
use mpcnet::sss::SharesMap;
use mpcnet::sss::SssError;
use rand::seq::IteratorRandom;

fn random_subset(shares_map: &SharesMap, size: usize) -> SharesMap {
    let mut rng = rand::thread_rng();
    let keys = shares_map
        .keys()
        .into_iter()
        .choose_multiple(&mut rng, size);
    let mut subset = SharesMap::new();
    for key in keys {
        let value = shares_map.get(key).unwrap();
        subset.insert(key, value);
    }
    subset
}

#[test]
fn test_split_and_combine_secret() {
    let secret = "test secret";
    let threshold = 3;
    let total_shares = 5;

    let shares_map = split_secret(secret.as_bytes(), threshold, total_shares).unwrap();
    let recovered = combine_shares(&shares_map).unwrap();

    assert_eq!(secret.as_bytes(), recovered.as_slice());
}

#[test]
fn test_refresh_shares() {
    let secret = "refresh test";
    let threshold = 3;
    let total_shares = 5;

    let mut shares_map = split_secret(secret.as_bytes(), threshold, total_shares).unwrap();
    refresh_shares(&mut shares_map, threshold).unwrap();
    let recovered = combine_shares(&shares_map).unwrap();

    assert_eq!(secret.as_bytes(), recovered.as_slice());
}

#[test]
fn test_refresh_share_end_to_end() {
    let secret = "refresh share end to end";
    let threshold = 3;
    let shares = 5;

    // Split the secret into shares
    let shares_map = split_secret(secret.as_bytes(), threshold, shares).unwrap();

    let secret_length = shares_map
        .get(1)
        .expect("Empty shares map")
        .len();
    let polynomials = generate_refresh_key(threshold, secret_length).unwrap();

    // Refresh each share with the same refresh key
    let mut refreshed = SharesMap::new();
    for key in shares_map.keys() {
        let mut value = shares_map.get(key).unwrap();
        refresh_share(key, &mut value, &polynomials).unwrap();
        refreshed.insert(key, value);
    }

    // Combine the shares to recover the secret
    let recovered_secret = combine_shares(&refreshed).unwrap();

    // Check that the recovered secret is the same as the original secret
    assert_eq!(secret.as_bytes(), recovered_secret);
}

#[test]
fn test_invalid_threshold_and_share_count() {
    let secret = "invalid params";
    assert!(split_secret(secret.as_bytes(), 0, 5).is_err());
    assert!(split_secret(secret.as_bytes(), 6, 5).is_err());
}

#[test]
fn test_share_uniqueness() {
    let secret = "unique shares";
    let threshold = 3;
    let total_shares = 5;

    let shares_map = split_secret(secret.as_bytes(), threshold, total_shares).unwrap();
    let shares: Vec<Vec<u8>> = shares_map
        .keys()
        .into_iter()
        .map(|k| shares_map.get(k).unwrap())
        .collect();
    let all_unique = shares
        .iter()
        .all(|v| shares.iter().filter(|x| *x == v).count() == 1);

    assert!(all_unique);
}

#[test]
fn test_share_subset_combination() {
    let secret = "subset test";
    let threshold = 3;
    let total_shares = 5;

    let shares_map = split_secret(secret.as_bytes(), threshold, total_shares).unwrap();
    let subset = random_subset(&shares_map, threshold);

    let recovered = combine_shares(&subset).unwrap();

    assert_eq!(secret.as_bytes(), recovered.as_slice());
}

#[test]
fn full_test() {
    let secret = b"Remember what the dormouse said.";
    let threshold = 2;
    let total_shares = 5;

    // Split into shares
    let mut shares_map = split_secret(secret, threshold, total_shares).unwrap();
    assert!(shares_map.len() == total_shares);

    // Refresh the shares
    refresh_shares(&mut shares_map, threshold).unwrap();
    refresh_shares(&mut shares_map, threshold).unwrap();
    refresh_shares(&mut shares_map, threshold).unwrap();

    // Select a random subset of shares to combine
    let subset = random_subset(&shares_map, threshold);
    assert!(subset.len() == threshold);

    let recovered = combine_shares(&subset);
    assert!(recovered.is_some());
    assert!(recovered.unwrap().as_slice() == secret);
}

#[test]
fn test_should_fail_with_shares_below_threshold() {
    // test should fail if the shares to reassemble are less than the threshold
    let secret = b"Remember what the dormouse said.";
    let threshold = 12;
    let total_shares = 30;

    // Split into 30 shares
    let mut shares_map = split_secret(secret, threshold, total_shares).unwrap();
    assert!(shares_map.len() == total_shares);

    // Refresh the shares
    refresh_shares(&mut shares_map, threshold).unwrap();
    refresh_shares(&mut shares_map, threshold).unwrap();
    refresh_shares(&mut shares_map, threshold).unwrap();

    // Select a random subset of shares below the threshold
    let subset = random_subset(&shares_map, threshold - 1);

    let recovered = combine_shares(&subset);
    assert!(recovered.is_some());

    println!("actual:    {}", hex::encode(secret));
    println!("recovered: {}", hex::encode(recovered.clone().unwrap()));

    assert_ne!(recovered.unwrap().as_slice(), secret);
}

#[test]
fn test_split_rejects_bad_parameters() {
    let secret = b"bounds";
    assert_eq!(
        split_secret(secret, 1, 5).unwrap_err(),
        SssError::InvalidThreshold
    );
    assert_eq!(
        split_secret(secret, 3, 2).unwrap_err(),
        SssError::InvalidCount
    );
    assert_eq!(
        split_secret(secret, 3, 300).unwrap_err(),
        SssError::InvalidCount
    );
}

#[test]
fn test_refresh_error_variants() {
    // a refresh key needs a threshold of at least two
    assert_eq!(
        generate_refresh_key(1, 4).unwrap_err(),
        SssError::InvalidThreshold
    );
    // refreshing an empty map is rejected
    let mut empty = SharesMap::new();
    assert_eq!(
        refresh_shares(&mut empty, 3).unwrap_err(),
        SssError::EmptyShares
    );
    // refreshing with a bad threshold is rejected before the map is read
    let mut shares_map = split_secret(b"ab", 2, 3).unwrap();
    assert_eq!(
        refresh_shares(&mut shares_map, 1).unwrap_err(),
        SssError::InvalidThreshold
    );
    // an empty share is rejected
    let polys = generate_refresh_key(2, 2).unwrap();
    let mut empty_share: Vec<u8> = Vec::new();
    assert_eq!(
        refresh_share(1, &mut empty_share, &polys).unwrap_err(),
        SssError::EmptyShare
    );
    // a share of another length than the key is rejected
    let mut short_share: Vec<u8> = vec![7];
    assert_eq!(
        refresh_share(1, &mut short_share, &polys).unwrap_err(),
        SssError::LengthMismatch
    );
    assert_eq!(short_share, vec![7]);
}

#[test]
fn test_zero_refresh_key_is_noop() {
    // a refresh key of all-zero polynomials must leave every share unchanged
    let mut shares_map = split_secret(b"noop", 3, 5).unwrap();
    let zero_poly = mpcnet::poly::Polynomial::from_bytes(&[0, 0, 0]);
    let zero_key = vec![
        zero_poly.clone(),
        zero_poly.clone(),
        zero_poly.clone(),
        zero_poly,
    ];
    for key in shares_map.keys() {
        let before = shares_map.get(key).unwrap();
        let mut value = before.clone();
        refresh_share(key, &mut value, &zero_key).unwrap();
        assert_eq!(value, before);
    }
    // and the map-level refresh with a real key still reconstructs
    refresh_shares(&mut shares_map, 3).unwrap();
    assert_eq!(combine_shares(&shares_map).unwrap(), b"noop".to_vec());
}

#[test]
fn test_refresh_changes_share_bytes() {
    // the share material must change across a refresh round
    let mut shares_map = split_secret(b"Remember what the dormouse said.", 2, 5).unwrap();
    let before: Vec<Vec<u8>> = shares_map
        .keys()
        .into_iter()
        .map(|k| shares_map.get(k).unwrap())
        .collect();
    refresh_shares(&mut shares_map, 2).unwrap();
    let after: Vec<Vec<u8>> = shares_map
        .keys()
        .into_iter()
        .map(|k| shares_map.get(k).unwrap())
        .collect();
    assert_ne!(before, after);
}

#[test]
fn test_combine_exact_value() {
    // the polynomial 5 + 3x over GF(2^8) takes the values 6 at 1 and 3 at 2
    let mut shares_map = SharesMap::new();
    assert!(shares_map.insert(1, vec![6]));
    assert!(shares_map.insert(2, vec![3]));
    assert!(!shares_map.insert(2, vec![9]));
    assert_eq!(combine_shares(&shares_map).unwrap(), vec![5]);
}

#[test]
fn test_gf_field_exact_values() {
    // the worked multiplication example of the AES specification
    assert_eq!(mpcnet::gf256::gf_mul(0x57, 0x83), 0xc1);
    // the inverse used by the AES s-box construction
    assert_eq!(mpcnet::gf256::gf_inv(0x53), 0xca);
    assert_eq!(mpcnet::gf256::gf_mul(0x53, 0xca), 1);
    assert_eq!(mpcnet::gf256::gf_div(0xc1, 0x83), 0x57);
}
