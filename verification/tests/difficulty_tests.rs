use btc_validation::difficulty_update::{calculate_difficulty_update, verify_difficulty_update};
use btc_validation::uint256::U256;

#[test]
fn test_trivial_difficulty() {
    let tar_u: u128 = 2 << 97;
    let tar_l: u128 = 2 << 97;
    let prev_tar_u: u128 = 2 << 96;
    let prev_tar_l: u128 = 2 << 96;
    let t_sum: u32 = 2016 * 10 * 60 * 2;

    let r = verify_difficulty_update(tar_u, tar_l, prev_tar_u, prev_tar_l, t_sum);

    assert!(r);
}

#[test]
fn test_btc_header_difficulty() {
    // previous difficulty 50646206431058 (798000th block)
    // difficulty 53911173001054 (800000th block)
    // updated at block 798336 = 2016 * 396
    // nbits of 800000th block = 0x17053894, of 798000th block = 0x17058ebe
    let prev_tar_u: u128 = 0;
    let prev_tar_l: u128 = 0x058ebe;
    let tar_u: u128 = 0;
    let tar_l: u128 = 0x053894;

    // Block 798335 to block 796319: 13 days, 3 hrs, 39 min, 6 sec
    let t_sum: u32 = 13 * 24 * 3600 + 3 * 3600 + 39 * 60 + 6;

    let r = verify_difficulty_update(tar_u, tar_l, prev_tar_u, prev_tar_l, t_sum);

    assert!(r);
}

#[test]
fn test_calc_new_target() {
    // The 798000th block's target, 0x058ebe mantissa at byte offset 14 of
    // the wide value the circuit carries.
    let prev_tar_u: u128 = 0x05;
    let prev_tar_l: u128 = 0x8ebe0000000000000000000000000000;
    let prev_target = U256::from_u128_pair(prev_tar_u, prev_tar_l);

    let t_sum: u32 = 13 * 24 * 3600 + 3 * 3600 + 39 * 60 + 6;

    let new_target = calculate_difficulty_update(&prev_target, t_sum);
    let target_u64 = &new_target;

    assert_eq!(target_u64[2], 5);
    assert_eq!(target_u64[1], 0x3894871D1837E9E5);
    assert_eq!(target_u64[0], 0x04B6B1D1837E9E50);
}

#[test]
fn test_difficulty_sum_out_of_bounds() {
    // Any sum outside (INTERVAL/4, INTERVAL*4) is rejected whatever the
    // targets are: a quarter of the ideal period exactly, and four times it.
    let interval: u32 = 2016 * 10 * 60;
    for sum in [0u32, 1, interval / 4, interval * 4, u32::MAX] {
        assert!(!verify_difficulty_update(2 << 97, 2 << 97, 2 << 96, 2 << 96, sum));
        assert!(!verify_difficulty_update(0, 1, 0, 1, sum));
        assert!(!verify_difficulty_update(0, 0, u128::MAX, u128::MAX, sum));
    }
}

#[test]
fn test_difficulty_wrong_target_rejected() {
    // In-bounds sum, but a claimed target off by one.
    let t_sum: u32 = 2016 * 10 * 60 * 2;
    assert!(!verify_difficulty_update(2 << 97, (2 << 97) + 1, 2 << 96, 2 << 96, t_sum));
}
