use btc_validation::hash_target::{check_pow, decode_target, hash_block, verify_current_hash};
use btc_validation::prev_block_hash::check_prev_hash;
use btc_validation::uint256::U256;

#[test]
fn test_hash_target() {
    // Block no. 4:
    // 0x000000004ebadb55ee9096c9a2f8880e 09da59c0d68b1c228da88e48844a1485
    let hash_u: u128 = 0x000000004ebadb55ee9096c9a2f8880e;
    let hash_l: u128 = 0x09da59c0d68b1c228da88e48844a1485;

    // nbits = 0x1d00ffff, so target = 0x00ffff000000000000000000000000000000000000000000000000
    let tar_u: u128 = 0x00ffff00000000000000000000;
    let tar_l: u128 = 0x00;
    let r2 = verify_current_hash(hash_u, hash_l, tar_u, tar_l);

    assert_eq!(r2, true);
}

#[test]
fn test_hash_target_corrupted() {
    // Raising the top byte of the hash pushes it past the target.
    let hash_u: u128 = 0x010000004ebadb55ee9096c9a2f8880e;
    let hash_l: u128 = 0x09da59c0d68b1c228da88e48844a1485;
    let tar_u: u128 = 0x00ffff00000000000000000000;
    let tar_l: u128 = 0x00;

    assert_eq!(verify_current_hash(hash_u, hash_l, tar_u, tar_l), false);
}

#[test]
fn test_decode_target() {
    // Genesis-era threshold: mantissa 0x00ffff, exponent 0x1d.
    let target = decode_target(0x1d00ffff);
    assert_eq!(target.w3, 0x00000000ffff0000);
    assert_eq!(target.w2, 0);
    assert_eq!(target.w1, 0);
    assert_eq!(target.w0, 0);

    // Block 123456's threshold: mantissa 0x6a93b3, exponent 0x1a.
    let target2 = decode_target(0x1a6a93b3);
    assert_eq!(target2.w3, 0x6a93);
    assert_eq!(target2.w2, 0xb300000000000000);
    assert_eq!(target2.w1, 0);
    assert_eq!(target2.w0, 0);
}

#[test]
fn test_check_pow() {
    // Block no. 4's hash against its decoded target: valid work.
    let hash = U256::from_u128_pair(
        0x000000004ebadb55ee9096c9a2f8880e,
        0x09da59c0d68b1c228da88e48844a1485,
    );
    let target = decode_target(0x1d00ffff);
    assert!(check_pow(&hash, &target));

    // The same hash against a threshold one exponent step tighter fails.
    let tighter = decode_target(0x1c00ffff);
    assert!(!check_pow(&hash, &tighter));

    // A hash equal to the target is not strictly below it.
    assert!(!check_pow(&target, &target));
}

#[test]
fn test_hash_previous() {
    // Block no. 123456: header words and the double-hash digest in wire
    // byte order.
    let hash_vec: Vec<u64> = vec![
        0xcac383cdf62f68ef,
        0xaa8064e35f6fc4df,
        0xc8aa74610c6580ed,
        0x1729000000000000,
    ];
    let preimage: Vec<u64> = vec![
        0x010000009500c43a,
        0x25c624520b5100ad,
        0xf82cb9f9da72fd24,
        0x47a496bc600b0000,
        0x000000006cd86237,
        0x0395dedf1da2841c,
        0xcda0fc489e3039de,
        0x5f1ccddef0e83499,
        0x1a65600ea6c8cb4d,
        0xb3936a1ae3143991,
    ];

    assert!(check_prev_hash(&preimage, &hash_vec));
}

#[test]
fn test_hash_previous_mismatch() {
    let mut hash_vec: Vec<u64> = vec![
        0xcac383cdf62f68ef,
        0xaa8064e35f6fc4df,
        0xc8aa74610c6580ed,
        0x1729000000000000,
    ];
    hash_vec[0] ^= 1;
    let preimage: Vec<u64> = vec![
        0x010000009500c43a,
        0x25c624520b5100ad,
        0xf82cb9f9da72fd24,
        0x47a496bc600b0000,
        0x000000006cd86237,
        0x0395dedf1da2841c,
        0xcda0fc489e3039de,
        0x5f1ccddef0e83499,
        0x1a65600ea6c8cb4d,
        0xb3936a1ae3143991,
    ];

    assert!(!check_prev_hash(&preimage, &hash_vec));
}

#[test]
fn test_hash_block_chain_link() {
    // hash_block over block 123456's header must reproduce, as a packed
    // value, the hash that block 123457 points back to:
    // 0x0000000000002917ed80650c6174aac8dfc46f5fe36480aaef682ff6cd83c3ca.
    let header: Vec<u64> = vec![
        0x010000009500c43a,
        0x25c624520b5100ad,
        0xf82cb9f9da72fd24,
        0x47a496bc600b0000,
        0x000000006cd86237,
        0x0395dedf1da2841c,
        0xcda0fc489e3039de,
        0x5f1ccddef0e83499,
        0x1a65600ea6c8cb4d,
        0xb3936a1ae3143991,
    ];

    let digest = hash_block(&header);
    assert_eq!(digest.w3, 0x0000000000002917);
    assert_eq!(digest.w2, 0xed80650c6174aac8);
    assert_eq!(digest.w1, 0xdfc46f5fe36480aa);
    assert_eq!(digest.w0, 0xef682ff6cd83c3ca);
}

#[test]
fn test_uint256_order() {
    let a = U256::from_words(5, 0, 0, 1);
    let b = U256::from_words(4, 0, 0, 2);
    assert!(a.less_than(&b));
    assert!(!b.less_than(&a));
    assert!(!a.less_than(&a));
    assert!(a.equals(&a));
    assert!(!a.equals(&b));
}
