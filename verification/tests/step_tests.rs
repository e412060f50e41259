use btc_validation::header_step::{Accumulator, BlockHeader, StepError};
use btc_validation::uint256::U256;

fn block_123456_words() -> [u64; 10] {
    [
        0x010000009500c43a,
        0x25c624520b5100ad,
        0xf82cb9f9da72fd24,
        0x47a496bc600b0000,
        0x000000006cd86237,
        0x0395dedf1da2841c,
        0xcda0fc489e3039de,
        0x5f1ccddef0e83499,
        0x1a65600ea6c8cb4d,
        0xb3936a1ae3143991,
    ]
}

fn state_before_block_123456() -> Accumulator {
    let scalars = BlockHeader::initial_z_i_scalars();
    Accumulator::from_scalars(&scalars).expect("the initial state is well formed")
}

#[test]
fn test_initial_scalars_shape() {
    let scalars = BlockHeader::initial_z_i_scalars();
    assert_eq!(scalars.len(), 16);
    // The running hash of the starting block, packed.
    assert_eq!(scalars[0].w3, 0x0b60);
    assert_eq!(scalars[0].w2, 0xbc96a44724fd72da);
    assert_eq!(scalars[0].w1, 0xf9b92cf8ad00510b);
    assert_eq!(scalars[0].w0, 0x5224c6253ac40095);
    // The eleven-timestamp window, oldest first.
    assert_eq!(scalars[1].w0, 1305191152);
    assert_eq!(scalars[11].w0, 1305200584);
    // Target, epoch start, counter, accumulated work.
    assert_eq!(scalars[12].w3, 0x6a93);
    assert_eq!(scalars[12].w2, 0xb300000000000000);
    assert_eq!(scalars[13].w0, 1304975844);
    assert_eq!(scalars[14].w0, 480);
    assert_eq!(scalars[15].w0, 0);
}

#[test]
fn test_from_scalars_rejects_wide_timestamp() {
    let mut scalars = BlockHeader::initial_z_i_scalars();
    scalars[3] = U256::from_words(0, 1, 0, 0);
    assert!(Accumulator::from_scalars(&scalars).is_none());
}

#[test]
fn test_from_scalars_rejects_wide_counter() {
    let mut scalars = BlockHeader::initial_z_i_scalars();
    scalars[14] = U256::from_words(2016, 0, 0, 0);
    assert!(Accumulator::from_scalars(&scalars).is_none());
}

#[test]
fn test_scalars_round_trip() {
    let scalars = BlockHeader::initial_z_i_scalars();
    let acc = Accumulator::from_scalars(&scalars).unwrap();
    let back = acc.to_scalars();
    assert_eq!(back.len(), 16);
    for i in 0..16 {
        assert!(back[i].equals(&scalars[i]));
    }
}

#[test]
fn test_arity_and_wrapping() {
    let header = BlockHeader { block_head: block_123456_words() };
    assert_eq!(header.arity(), 16);

    let blocks = BlockHeader::new_blocks(vec![block_123456_words(), [0u64; 10]]);
    assert_eq!(blocks.len(), 2);
    assert_eq!(blocks[0].block_head[9], 0xb3936a1ae3143991);
    assert_eq!(blocks[1].block_head, [0u64; 10]);

    let zero: BlockHeader = Default::default();
    assert_eq!(zero.block_head, [0u64; 10]);
}

#[test]
fn test_full_step() {
    // One synthesis call with block 123456's real header over the carried
    // state: the step must succeed, slide the window, step the counter,
    // carry the target and add the block's work.
    let z = state_before_block_123456();
    let header = BlockHeader { block_head: block_123456_words() };

    let out = header.synthesize(&z).expect("a real block satisfies every rule");

    // The running hash becomes this block's digest.
    assert_eq!(out.hash.w3, 0x0000000000002917);
    assert_eq!(out.hash.w2, 0xed80650c6174aac8);
    assert_eq!(out.hash.w1, 0xdfc46f5fe36480aa);
    assert_eq!(out.hash.w0, 0xef682ff6cd83c3ca);

    // The window slides by one; the newest entry is this block's time.
    assert_eq!(out.timestamps.len(), 11);
    assert_eq!(out.timestamps[0], 1305191688);
    assert_eq!(out.timestamps[9], 1305200584);
    assert_eq!(out.timestamps[10], 0x4dcbc8a6);

    // Mid-period: the target is carried, the counter steps, the epoch
    // slot stays.
    assert!(out.target.equals(&z.target));
    assert_eq!(out.counter, 481);
    assert_eq!(out.epoch_start, 1304975844);

    // The work grows by max_target / target = 0xffff·2^24 / 0x6a93b3.
    assert_eq!(out.work.w0, 157416);
    assert_eq!(out.work.w1, 0);
}

#[test]
fn test_step_rejects_broken_chain_link() {
    let mut z = state_before_block_123456();
    z.hash = U256::from_words(z.hash.w0 ^ 1, z.hash.w1, z.hash.w2, z.hash.w3);
    let header = BlockHeader { block_head: block_123456_words() };

    assert!(matches!(header.synthesize(&z), Err(StepError::Unsatisfiable)));
}

#[test]
fn test_step_rejects_tampered_header() {
    let z = state_before_block_123456();
    let mut words = block_123456_words();
    // Flip one nonce bit: the digest moves and proof of work fails.
    words[9] ^= 1;
    let header = BlockHeader { block_head: words };

    assert!(matches!(header.synthesize(&z), Err(StepError::Unsatisfiable)));
}

#[test]
fn test_step_rejects_undecodable_target_field() {
    let z = state_before_block_123456();
    let mut words = block_123456_words();
    // A compact field whose exponent byte is zero names no threshold.
    words[9] = 0xb3936a1a & 0xFFFFFFFF;
    let header = BlockHeader { block_head: words };

    assert!(matches!(header.synthesize(&z), Err(StepError::MalformedHeader)));
}

#[test]
fn test_step_rejects_stale_timestamp() {
    let mut z = state_before_block_123456();
    // Push the whole window past the header's time: the median rule fails.
    for i in 0..11 {
        z.timestamps[i] = 0x4dcbc8a6 + i as u32;
    }
    let header = BlockHeader { block_head: block_123456_words() };

    assert!(matches!(header.synthesize(&z), Err(StepError::Unsatisfiable)));
}
