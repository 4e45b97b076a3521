//! The channel, proof of work and hash columns, with a hash function that is written out
//! here.

use std::cell::Cell;

use metal_backend::blake2s_hash::Blake2sHash;
use metal_backend::channel::{
    MetalBlake2sChannel, MetalBlake2sChannelGeneric, MetalBlake2sM31Channel,
    MetalBlake2sMerkleChannel,
};
use metal_backend::fields::{BaseField, SecureField};
use metal_backend::grind::{
    grind, grind_on_device, grind_step, plan_grind_batch, pow_prefix_preimage, GrindBatch,
    GrindStep,
};
use metal_backend::kernel::{Arg, Grid, Kernel, Plan, Source};
use metal_backend::merkle::{
    build_leaves, build_next_layer, hash_at, hashes_of, hashes_to_words, MetalBlake2sColumn,
    SyncState,
};

const SIGMA: [[usize; 16]; 10] = [
    [0, 1, 2, 3, 4, 5, 6, 7, 8, 9, 10, 11, 12, 13, 14, 15],
    [14, 10, 4, 8, 9, 15, 13, 6, 1, 12, 0, 2, 11, 7, 5, 3],
    [11, 8, 12, 0, 5, 2, 15, 13, 10, 14, 3, 6, 7, 1, 9, 4],
    [7, 9, 3, 1, 13, 12, 11, 14, 2, 6, 5, 10, 4, 0, 15, 8],
    [9, 0, 5, 7, 2, 4, 10, 15, 14, 1, 11, 12, 6, 8, 3, 13],
    [2, 12, 6, 10, 0, 11, 8, 3, 4, 13, 7, 5, 15, 14, 1, 9],
    [12, 5, 1, 15, 14, 13, 4, 10, 0, 7, 6, 3, 9, 2, 8, 11],
    [13, 11, 7, 14, 12, 1, 3, 9, 5, 0, 15, 4, 8, 6, 2, 10],
    [6, 15, 14, 9, 11, 3, 0, 8, 12, 2, 13, 7, 1, 4, 10, 5],
    [10, 2, 8, 4, 7, 6, 1, 5, 15, 11, 9, 14, 3, 12, 13, 0],
];

const IV: [u32; 8] = [
    0x6A09E667, 0xBB67AE85, 0x3C6EF372, 0xA54FF53A, 0x510E527F, 0x9B05688C, 0x1F83D9AB, 0x5BE0CD19,
];

fn mix(v: &mut [u32; 16], [a, b, c, d]: [usize; 4], x: u32, y: u32) {
    v[a] = v[a].wrapping_add(v[b]).wrapping_add(x);
    v[d] = (v[d] ^ v[a]).rotate_right(16);
    v[c] = v[c].wrapping_add(v[d]);
    v[b] = (v[b] ^ v[c]).rotate_right(12);
    v[a] = v[a].wrapping_add(v[b]).wrapping_add(y);
    v[d] = (v[d] ^ v[a]).rotate_right(8);
    v[c] = v[c].wrapping_add(v[d]);
    v[b] = (v[b] ^ v[c]).rotate_right(7);
}

fn blake2s(data: &[u8]) -> [u8; 32] {
    let mut h = IV;
    h[0] ^= 0x0101_0020;
    let blocks = data.len().div_ceil(64).max(1);
    for block in 0..blocks {
        let part = &data[64 * block..data.len().min(64 * block + 64)];
        let mut bytes = [0u8; 64];
        bytes[..part.len()].copy_from_slice(part);
        let m: Vec<u32> =
            bytes.chunks(4).map(|c| u32::from_le_bytes([c[0], c[1], c[2], c[3]])).collect();
        let mut v = [0u32; 16];
        v[..8].copy_from_slice(&h);
        v[8..].copy_from_slice(&IV);
        v[12] ^= (64 * block + part.len()) as u32;
        if block + 1 == blocks {
            v[14] ^= u32::MAX;
        }
        for s in SIGMA {
            for k in 0..4 {
                mix(&mut v, [k, 4 + k, 8 + k, 12 + k], m[s[2 * k]], m[s[2 * k + 1]]);
            }
            for k in 0..4 {
                let columns = [k, 4 + (k + 1) % 4, 8 + (k + 2) % 4, 12 + (k + 3) % 4];
                mix(&mut v, columns, m[s[8 + 2 * k]], m[s[9 + 2 * k]]);
            }
        }
        for i in 0..8 {
            h[i] ^= v[i] ^ v[8 + i];
        }
    }
    let mut out = [0u8; 32];
    for i in 0..8 {
        out[4 * i..4 * i + 4].copy_from_slice(&h[i].to_le_bytes());
    }
    out
}

fn hash(bytes: Vec<u8>) -> Blake2sHash {
    Blake2sHash(blake2s(&bytes))
}

fn words_of(hash: &[u8; 32]) -> [u32; 8] {
    std::array::from_fn(|i| {
        u32::from_le_bytes([hash[4 * i], hash[4 * i + 1], hash[4 * i + 2], hash[4 * i + 3]])
    })
}

fn bytes_of(words: &[u32]) -> Vec<u8> {
    words.iter().flat_map(|w| w.to_le_bytes()).collect()
}

fn felt(a: u32, b: u32, c: u32, d: u32) -> SecureField {
    SecureField::from_m31_array([BaseField(a), BaseField(b), BaseField(c), BaseField(d)])
}

fn words_buffer(plan: &Plan, slot: usize) -> &Vec<u32> {
    match &plan.buffers[slot] {
        Source::Words(words) => words,
        other => panic!("unexpected buffer {other:?}"),
    }
}

#[test]
fn hash_function_is_the_known_one() {
    let expected = [
        0x50, 0x8c, 0x5e, 0x8c, 0x32, 0x7c, 0x14, 0xe2, 0xe1, 0xa7, 0x2b, 0xa3, 0x4e, 0xeb, 0x45,
        0x2f, 0x37, 0x45, 0x8b, 0x20, 0x9e, 0xd6, 0x3a, 0x29, 0x4d, 0x99, 0x9b, 0x4c, 0x86, 0x67,
        0x59, 0x82,
    ];
    assert_eq!(blake2s(b"abc"), expected);
}

#[test]
fn words_are_little_endian() {
    let bytes: [u8; 32] = std::array::from_fn(|i| i as u8);
    let words = Blake2sHash(bytes).words();
    assert_eq!(words[0], 0x0302_0100);
    assert_eq!(words[7], 0x1f1e_1d1c);
    assert_eq!(Blake2sHash::from_words(words).0, bytes);
}

#[test]
fn new_channels_start_at_zero() {
    let channel = MetalBlake2sChannel::new();
    assert_eq!(channel.digest().0, [0; 32]);
    assert_eq!(channel.n_draws, 0);
    let other = MetalBlake2sM31Channel::default();
    assert_eq!(other.digest().0, [0; 32]);
}

#[test]
fn digests_are_read_as_written() {
    let mut channel = MetalBlake2sChannel::new();
    channel.n_draws = 3;
    let digest = hash(b"digest".to_vec());
    channel.update_digest(digest);
    assert_eq!(channel.digest(), digest);
    assert_eq!(channel.n_draws, 0);
    let copy = channel.clone();
    assert_eq!(copy.digest(), digest);
}

#[test]
fn numbers_are_mixed_as_two_words() {
    let mut a = MetalBlake2sChannel::new();
    let mut b = MetalBlake2sChannel::new();
    a.mix_u64(0x0102_0304_0506_0708, hash);
    b.mix_u32s(&[0x0506_0708, 0x0102_0304], hash);
    assert_eq!(a.digest(), b.digest());
    let mut preimage = vec![0u8; 32];
    preimage.extend([8, 7, 6, 5, 4, 3, 2, 1]);
    assert_eq!(a.digest().0, blake2s(&preimage));
}

#[test]
fn few_elements_are_mixed_by_the_processor() {
    let felts: Vec<SecureField> = (0..9).map(|i| felt(i, i + 1, i + 2, i + 3)).collect();
    let mut channel = MetalBlake2sChannel::new();
    channel.n_draws = 2;
    channel.mix_felts(&felts, hash, |_| panic!("nine elements are too few"));
    let mut preimage = vec![0u8; 32];
    for i in 0..9 {
        preimage.extend(bytes_of(&[i, i + 1, i + 2, i + 3]));
    }
    assert_eq!(channel.digest().0, blake2s(&preimage));
    assert_eq!(channel.n_draws, 0);
}

#[test]
fn many_elements_are_mixed_by_the_device() {
    let felts: Vec<SecureField> = (0..10).map(|i| felt(i, 0, 0, 1)).collect();
    let mut channel = MetalBlake2sM31Channel::new();
    channel.update_digest(hash(b"before".to_vec()));
    let before = channel.digest();
    channel.mix_felts(
        &felts,
        |_| panic!("ten elements are enough"),
        |plan| {
            assert_eq!(plan.dispatches.len(), 1);
            let dispatch = &plan.dispatches[0];
            assert_eq!(dispatch.kernel, Kernel::Blake2sChannelMixFelts);
            assert_eq!(dispatch.grid, Grid::Groups { count: 1, size: 1 });
            assert_eq!(dispatch.args[2], Arg::U32(10));
            assert_eq!(dispatch.args[3], Arg::Flag(true));
            assert_eq!(words_buffer(&plan, 0), &words_of(&before.0).to_vec());
            assert_eq!(words_buffer(&plan, 1).len(), 40);
            assert_eq!(words_buffer(&plan, 1)[36..], [9, 0, 0, 1]);
            [7; 8]
        },
    );
    assert_eq!(channel.digest().0, [7, 0, 0, 0].repeat(8)[..]);
}

#[test]
fn roots_are_mixed_by_the_device() {
    let root = hash(b"root".to_vec());
    let mut channel = MetalBlake2sChannel::new();
    channel.n_draws = 5;
    MetalBlake2sMerkleChannel::mix_root(&mut channel, root, |plan| {
        assert_eq!(plan.dispatches[0].kernel, Kernel::Blake2sChannelMix);
        assert_eq!(words_buffer(&plan, 0), &vec![0; 8]);
        assert_eq!(words_buffer(&plan, 1), &words_of(&root.0).to_vec());
        assert_eq!(plan.dispatches[0].args[2], Arg::Flag(false));
        let mut preimage = bytes_of(words_buffer(&plan, 0));
        preimage.extend(bytes_of(words_buffer(&plan, 1)));
        words_of(&blake2s(&preimage))
    });
    let mut preimage = vec![0u8; 32];
    preimage.extend(root.0);
    assert_eq!(channel.digest().0, blake2s(&preimage));
    assert_eq!(channel.n_draws, 0);
}

/// Draws `table[n]` for draw number `n`.
fn draw_from(table: Vec<[u32; 8]>) -> impl Fn(Plan) -> [u32; 8] {
    move |plan: Plan| {
        assert_eq!(plan.dispatches[0].kernel, Kernel::Blake2sChannelDraw);
        assert_eq!(plan.dispatches[0].args[2], Arg::U8(0));
        match plan.dispatches[0].args[1] {
            Arg::U32(n) => table[n as usize],
            other => panic!("unexpected argument {other:?}"),
        }
    }
}

#[test]
fn draws_out_of_range_are_repeated() {
    let limit = 2 * 0x7fff_ffffu32;
    let run = draw_from(vec![
        [0, 0, 0, 0, 0, 0, 0, limit],
        [u32::MAX; 8],
        [limit - 1, 0x7fff_ffff, 5, 0x8000_0001, 1, 2, 3, 4],
    ]);
    let mut channel = MetalBlake2sChannel::new();
    let felt_drawn = channel.draw_secure_felt(&run).unwrap();
    assert_eq!(felt_drawn, felt(0x7fff_fffe, 0, 5, 2));
    assert_eq!(channel.n_draws, 3);
}

#[test]
fn draws_give_two_elements_each() {
    let run = draw_from(vec![[1, 2, 3, 4, 5, 6, 7, 8], [9, 10, 11, 12, 13, 14, 15, 16]]);
    let mut channel = MetalBlake2sChannel::new();
    let felts = channel.draw_secure_felts(3, &run).unwrap();
    assert_eq!(felts, vec![felt(1, 2, 3, 4), felt(5, 6, 7, 8), felt(9, 10, 11, 12)]);
    assert_eq!(channel.n_draws, 2);
    let mut fresh = MetalBlake2sChannel::new();
    assert_eq!(fresh.draw_secure_felts(0, &run).unwrap(), vec![]);
    assert_eq!(fresh.n_draws, 0);
    assert_eq!(fresh.draw_u32s(&run), [1, 2, 3, 4, 5, 6, 7, 8]);
    assert_eq!(fresh.n_draws, 1);
}

#[test]
fn draws_come_to_an_end() {
    let mut channel: MetalBlake2sChannelGeneric<false> = MetalBlake2sChannelGeneric::new();
    channel.n_draws = u32::MAX - 1;
    assert_eq!(channel.draw_base_felts(&|_: Plan| [u32::MAX; 8]), None);
    assert_eq!(channel.n_draws, u32::MAX);
    assert_eq!(channel.draw_secure_felt(&|_: Plan| [0; 8]), None);
    assert_eq!(channel.draw_secure_felts(1, &|_: Plan| [0; 8]), None);
}

const PREFIX: u32 = 0x1234_5678;

fn trailing_zeros(digest: &[u32], nonce: u64) -> u32 {
    let mut preimage = bytes_of(digest);
    preimage.extend(nonce.to_le_bytes());
    let result = blake2s(&preimage);
    u128::from_le_bytes(std::array::from_fn(|i| result[i])).trailing_zeros()
}

/// Searches the first nonces of a batch.
fn search(plan: Plan) -> GrindBatch {
    let dispatch = &plan.dispatches[0];
    assert_eq!(dispatch.kernel, Kernel::Grind);
    let (Arg::U32(pow_bits), Arg::U64(start)) = (dispatch.args[3], dispatch.args[4]) else {
        panic!("unexpected arguments");
    };
    let digest = words_buffer(&plan, 0);
    let mut candidates: Vec<u64> =
        (start..start + 20_000).filter(|n| trailing_zeros(digest, *n) >= pow_bits).collect();
    candidates.reverse();
    candidates.truncate(64);
    GrindBatch { count: candidates.len() as u32, candidates }
}

#[test]
fn test_grind_finds_valid_nonce() {
    let mut channel = MetalBlake2sChannel::new();
    channel.mix_u64(42, hash);
    let pow_bits = 10;
    let nonce = grind(PREFIX, channel.digest(), pow_bits, false, hash, search).unwrap();
    assert!(nonce < u64::MAX, "Metal failed to find a valid nonce");
    assert!(channel.verify_pow_nonce(PREFIX, pow_bits, nonce, hash));
    // It is the least one.
    for smaller in 0..nonce {
        assert!(!channel.verify_pow_nonce(PREFIX, pow_bits, smaller, hash));
    }
}

#[test]
fn grinding_goes_on_to_the_next_batch() {
    let digest = hash(b"digest".to_vec());
    let run = |plan: Plan| {
        let Arg::U64(start) = plan.dispatches[0].args[4] else {
            panic!("unexpected argument");
        };
        let found = start == 3 * 16384 * 1024;
        GrindBatch {
            count: if found { 2 } else { 0 },
            candidates: if found { vec![start + 9, start + 4] } else { vec![] },
        }
    };
    assert_eq!(grind(PREFIX, digest, 20, false, hash, run), Some(3 * 16384 * 1024 + 4));
}

#[test]
fn grinding_ends_after_the_last_batch() {
    let digest = hash(b"digest".to_vec());
    let nothing = |_: Plan| GrindBatch { count: 0, candidates: vec![] };
    assert_eq!(grind(PREFIX, digest, 32, true, hash, nothing), None);
    let empty = GrindBatch { count: 0, candidates: vec![] };
    assert_eq!(grind_step(999, &empty), GrindStep::Next(1000));
    assert_eq!(grind_step(1000, &empty), GrindStep::Failed(1001));
}

#[test]
fn only_written_candidates_count() {
    let mut candidates: Vec<u64> = (100..164).collect();
    candidates.push(1);
    assert_eq!(grind_step(0, &GrindBatch { count: 65, candidates }), GrindStep::Found(100));
    let two = GrindBatch { count: 2, candidates: vec![8, 7, 1] };
    assert_eq!(grind_step(0, &two), GrindStep::Found(7));
}

#[test]
fn preimage_of_the_search() {
    let bytes = pow_prefix_preimage(0x0403_0201, Blake2sHash([9; 32]), 10);
    let mut expected = vec![1, 2, 3, 4];
    expected.extend([0; 12]);
    expected.extend([9; 32]);
    expected.extend([10, 0, 0, 0]);
    assert_eq!(bytes, expected);
}

#[test]
fn batches_are_launched_in_full() {
    let plan = plan_grind_batch(Blake2sHash([1; 32]), 12, 2, true);
    assert_eq!(words_buffer(&plan, 0), &vec![0x0101_0101; 8]);
    assert_eq!(words_buffer(&plan, 2), &vec![0]);
    let dispatch = &plan.dispatches[0];
    assert_eq!(dispatch.grid, Grid::Groups { count: 64, size: 256 });
    assert_eq!(
        dispatch.args[3..],
        [Arg::U32(12), Arg::U64(2 * 16384 * 1024), Arg::U32(1024), Arg::Flag(true)]
    );
}

#[test]
fn few_bits_are_for_the_processor() {
    assert!(!grind_on_device(9, true));
    assert!(grind_on_device(10, true));
    assert!(!grind_on_device(10, false));
}

#[test]
fn nonces_prove_at_most_128_bits() {
    let channel = MetalBlake2sChannel::new();
    let zero = |_: Vec<u8>| Blake2sHash([0; 32]);
    assert!(channel.verify_pow_nonce(PREFIX, 128, 0, zero));
    assert!(!channel.verify_pow_nonce(PREFIX, 129, 0, zero));
    let one = |_: Vec<u8>| {
        let mut bytes = [0; 32];
        bytes[1] = 4;
        Blake2sHash(bytes)
    };
    assert!(channel.verify_pow_nonce(PREFIX, 10, 0, one));
    assert!(!channel.verify_pow_nonce(PREFIX, 11, 0, one));
}

#[test]
fn hash_columns_are_read_as_written() {
    let hashes: Vec<Blake2sHash> = (0..5u8).map(|i| hash(vec![i])).collect();
    let words = hashes_to_words(&hashes);
    assert_eq!(words.len(), 40);
    assert_eq!(words[8..16], words_of(&hashes[1].0));
    assert_eq!(hashes_of(&words, 5), hashes);
    assert_eq!(hash_at(&words, 3), hashes[3]);
    let mut column: MetalBlake2sColumn<Vec<u32>, u32> =
        MetalBlake2sColumn::from_cpu(&hashes, |source| match source {
            Source::Words(words) => words,
            other => panic!("unexpected buffer {other:?}"),
        });
    assert_eq!(column.len(), 5);
    assert!(matches!(column.sync_state, SyncState::Synced));
    assert_eq!(column.to_cpu(|_| panic!("nothing to wait for"), |b| b.clone()), hashes);
    assert_eq!(column.read_hash(4, |_| panic!("nothing to wait for"), |b| b.clone()), hashes[4]);
}

#[test]
fn pending_columns_are_waited_for_once() {
    let hashes = vec![hash(vec![1])];
    let mut column = MetalBlake2sColumn::from_gpu_pending(hashes_to_words(&hashes), 1, 77);
    assert!(matches!(column.sync_state, SyncState::Pending(77)));
    assert_eq!(column.buffer().len(), 8);
    // The buffer is read after the wait.
    let waited = Cell::new(0);
    let read = |b: &Vec<u32>| {
        assert_eq!(waited.get(), 77);
        b.clone()
    };
    assert_eq!(column.read_hash(0, |c| waited.set(c), read), hashes[0]);
    let mut other = MetalBlake2sColumn::from_gpu_pending(hashes_to_words(&hashes), 1, 77);
    waited.set(0);
    assert_eq!(other.to_cpu(|c| waited.set(c), read), hashes);
    column.ensure_synced(|_| panic!("already waited for"));
    assert!(matches!(column.sync_state, SyncState::Synced));
}

#[test]
fn leaves_of_columns_of_several_sizes() {
    let logs = [10u32, 10, 11, 12, 12];
    let data: Vec<Vec<BaseField>> =
        logs.iter().map(|log| (0..1u32 << log).map(BaseField).collect()).collect();
    let columns: Vec<&[BaseField]> = data.iter().map(|c| c.as_slice()).collect();
    let plan = build_leaves(&columns, 12, false).unwrap();
    let expected: Vec<u32> = logs.iter().flat_map(|log| 0..1u32 << log).collect();
    assert_eq!(words_buffer(&plan, 0), &expected);
    assert_eq!(words_buffer(&plan, 1), &vec![0, 1024, 2048, 4096, 8192]);
    assert_eq!(words_buffer(&plan, 2), &logs.to_vec());
    assert!(matches!(plan.buffers[3], Source::Fresh(131072)));
    let dispatch = &plan.dispatches[0];
    assert_eq!(dispatch.kernel, Kernel::MerkleLeafLifted);
    assert_eq!(dispatch.args[4..], [Arg::U32(5), Arg::U32(12), Arg::Flag(false)]);
    assert_eq!(dispatch.grid, Grid::Groups { count: 16, size: 256 });
}

#[test]
fn small_layers_are_for_the_processor() {
    let column: Vec<BaseField> = (0..1024).map(BaseField).collect();
    assert!(build_leaves(&[&column], 9, true).is_none());
    assert!(build_leaves(&[], 12, true).is_none());
    assert!(build_leaves(&[&column], 10, true).is_some());
    for log_size in 5..=14 {
        match build_next_layer(1 << log_size, false) {
            None => assert!(log_size <= 10),
            Some((plan, num_parents)) => {
                assert!(log_size > 10);
                assert_eq!(num_parents, 1 << (log_size - 1));
                let dispatch = &plan.dispatches[0];
                assert_eq!(dispatch.kernel, Kernel::Merkle);
                assert_eq!(
                    dispatch.args,
                    vec![
                        Arg::Buffer { slot: 0, offset: 0 },
                        Arg::Buffer { slot: 1, offset: 0 },
                        Arg::Flag(false),
                        Arg::U32(num_parents as u32),
                    ]
                );
            }
        }
    }
}

#[test]
fn parents_are_hashes_of_pairs() {
    let children: Vec<Blake2sHash> = (0..2048u32).map(|i| hash(i.to_le_bytes().to_vec())).collect();
    let words = hashes_to_words(&children);
    let (plan, num_parents) = build_next_layer(children.len(), false).unwrap();
    let dispatch = &plan.dispatches[0];
    let Grid::Groups { count, size } = dispatch.grid else {
        panic!("unexpected grid");
    };
    assert_eq!(count * size, num_parents as u64);
    assert_eq!(dispatch.args[3], Arg::U32(1024));
    // Each thread hashes the sixteen words of two children.
    let parents: Vec<Blake2sHash> = words
        .chunks(16)
        .map(|pair| hash(pair.iter().flat_map(|w| w.to_le_bytes()).collect()))
        .collect();
    assert_eq!(parents.len(), num_parents);
    for (i, parent) in parents.iter().enumerate() {
        let mut bytes = children[2 * i].0.to_vec();
        bytes.extend(children[2 * i + 1].0);
        assert_eq!(*parent, hash(bytes));
    }
}

/// The index in a column of the value at a place of the lifted column: values are repeated,
/// and two neighbours stay neighbours.
fn lifted(i: usize, log_size: u32, lifting_log_size: u32) -> usize {
    ((i >> (lifting_log_size - log_size + 1)) << 1) + (i & 1)
}

/// The hashes of the leaves of columns.
fn leaf_hashes(columns: &[Vec<BaseField>], lifting_log_size: u32) -> Vec<Blake2sHash> {
    (0..1usize << lifting_log_size)
        .map(|i| {
            let row: Vec<u32> = columns
                .iter()
                .map(|c| c[lifted(i, c.len().trailing_zeros(), lifting_log_size)].0)
                .collect();
            hash(bytes_of(&row))
        })
        .collect()
}

fn slot(plan: &Plan, i: usize) -> usize {
    match plan.dispatches[0].args[i] {
        Arg::Buffer { slot, offset: 0 } => slot,
        other => panic!("unexpected argument {other:?}"),
    }
}

fn number(plan: &Plan, i: usize) -> u32 {
    match plan.dispatches[0].args[i] {
        Arg::U32(value) => value,
        other => panic!("unexpected argument {other:?}"),
    }
}

fn threads(plan: &Plan) -> usize {
    match plan.dispatches[0].grid {
        Grid::Groups { count, size } => {
            assert!(size <= 256);
            (count * size) as usize
        }
        other => panic!("unexpected grid {other:?}"),
    }
}

/// The words of the leaves' hashes: each thread finds its row in the packed columns.
fn run_leaves(plan: &Plan) -> Vec<u32> {
    assert_eq!(plan.dispatches[0].kernel, Kernel::MerkleLeafLifted);
    let packed = words_buffer(plan, slot(plan, 0));
    let offsets = words_buffer(plan, slot(plan, 1));
    let log_sizes = words_buffer(plan, slot(plan, 2));
    let (n_columns, lifting_log_size) = (number(plan, 4) as usize, number(plan, 5));
    let n_leaves = threads(plan).min(1 << lifting_log_size);
    let mut out = vec![];
    for i in 0..n_leaves {
        let row: Vec<u32> = (0..n_columns)
            .map(|c| packed[offsets[c] as usize + lifted(i, log_sizes[c], lifting_log_size)])
            .collect();
        out.extend(words_of(&blake2s(&bytes_of(&row))));
    }
    match plan.buffers[slot(plan, 3)] {
        Source::Fresh(bytes) => assert_eq!(bytes as usize, 4 * out.len()),
        ref other => panic!("unexpected buffer {other:?}"),
    }
    out
}

/// The words of the hashes of pairs.
fn run_layer(plan: &Plan, children: &[u32]) -> Vec<u32> {
    assert_eq!(plan.dispatches[0].kernel, Kernel::Merkle);
    assert!(matches!(plan.buffers[slot(plan, 0)], Source::Input(0)));
    let size = threads(plan).min(number(plan, 3) as usize);
    let mut out = vec![];
    for i in 0..size {
        out.extend(words_of(&blake2s(&bytes_of(&children[16 * i..16 * i + 16]))));
    }
    match plan.buffers[slot(plan, 1)] {
        Source::Fresh(bytes) => assert_eq!(bytes as usize, 4 * out.len()),
        ref other => panic!("unexpected buffer {other:?}"),
    }
    out
}

type WordColumn = MetalBlake2sColumn<Vec<u32>, ()>;

fn column_of(hashes: &[Blake2sHash]) -> WordColumn {
    MetalBlake2sColumn::from_cpu(hashes, |source| match source {
        Source::Words(words) => words,
        other => panic!("unexpected buffer {other:?}"),
    })
}

/// The leaves' hashes, of the device where it is used and else of the processor.
fn leaf_column(columns: &[Vec<BaseField>], lifting_log_size: u32) -> WordColumn {
    let slices: Vec<&[BaseField]> = columns.iter().map(|c| c.as_slice()).collect();
    match build_leaves(&slices, lifting_log_size, false) {
        Some(plan) => {
            assert!(lifting_log_size >= 10);
            MetalBlake2sColumn::from_gpu_pending(run_leaves(&plan), 1 << lifting_log_size, ())
        }
        None => {
            assert!(lifting_log_size < 10);
            column_of(&leaf_hashes(columns, lifting_log_size))
        }
    }
}

fn parent_hashes(children: &[Blake2sHash]) -> Vec<Blake2sHash> {
    children
        .chunks(2)
        .map(|pair| hash(pair.iter().flat_map(|child| child.0).collect()))
        .collect()
}

fn counting_column(log_size: u32) -> Vec<BaseField> {
    (0..1u32 << log_size).map(BaseField).collect()
}

#[test]
fn test_merkle_blake2s_build_leaves_metal_vs_simd() {
    for log_size in 5..=14 {
        let columns = [counting_column(log_size)];
        let expected = leaf_hashes(&columns, log_size);
        let mut leaves = leaf_column(&columns, log_size);
        assert_eq!(leaves.len(), 1 << log_size);
        assert_eq!(
            leaves.to_cpu(|_| {}, |b| b.clone()),
            expected,
            "Merkle build_leaves mismatch at log_size={log_size}"
        );
    }
}

#[test]
fn test_merkle_build_leaves_variable_sizes() {
    let lifting_log_size = 12;
    let columns: Vec<Vec<BaseField>> =
        [10, 10, 11, 12, 12].into_iter().map(counting_column).collect();
    let expected = leaf_hashes(&columns, lifting_log_size);
    let mut leaves = leaf_column(&columns, lifting_log_size);
    assert_eq!(
        leaves.to_cpu(|_| {}, |b| b.clone()),
        expected,
        "Variable-size build_leaves mismatch"
    );
}

#[test]
fn test_merkle_build_next_layer_metal_vs_simd() {
    for log_size in 5..=14 {
        let columns = [counting_column(log_size)];
        let expected = parent_hashes(&leaf_hashes(&columns, log_size));
        let mut leaves = leaf_column(&columns, log_size);
        let mut next: WordColumn = match build_next_layer(leaves.len(), false) {
            Some((plan, num_parents)) => {
                assert!(log_size > 10);
                let words = run_layer(&plan, leaves.buffer());
                MetalBlake2sColumn::from_gpu_pending(words, num_parents, ())
            }
            None => {
                assert!(log_size <= 10);
                column_of(&parent_hashes(&leaves.to_cpu(|_| {}, |b| b.clone())))
            }
        };
        assert_eq!(
            next.to_cpu(|_| {}, |b| b.clone()),
            expected,
            "build_next_layer mismatch at log_size={log_size}"
        );
    }
}

/// Hashes a digest and the number of a draw.
fn draw_by_hash(plan: Plan) -> [u32; 8] {
    assert_eq!(plan.dispatches[0].kernel, Kernel::Blake2sChannelDraw);
    let mut preimage = bytes_of(words_buffer(&plan, slot(&plan, 0)));
    preimage.extend(number(&plan, 1).to_le_bytes());
    words_of(&blake2s(&preimage))
}

#[test]
fn fewer_draws_are_a_prefix() {
    let digest = hash(b"digest".to_vec());
    let draw = |n: usize| {
        let mut channel = MetalBlake2sChannel::new();
        channel.update_digest(digest);
        channel.draw_secure_felts(n, &draw_by_hash).unwrap()
    };
    let longest = draw(9);
    assert_eq!(longest.len(), 9);
    for n in 0..9 {
        assert_eq!(draw(n), longest[..n]);
    }
    let mut channel = MetalBlake2sChannel::new();
    channel.update_digest(digest);
    assert_eq!(channel.draw_secure_felt(&draw_by_hash).unwrap(), longest[0]);
}

/// Hashes the digest and the elements.
fn mix_by_hash(plan: Plan) -> [u32; 8] {
    assert_eq!(plan.dispatches[0].kernel, Kernel::Blake2sChannelMixFelts);
    let mut preimage = bytes_of(words_buffer(&plan, slot(&plan, 0)));
    let felts = words_buffer(&plan, slot(&plan, 1));
    preimage.extend(bytes_of(&felts[..4 * number(&plan, 2) as usize]));
    words_of(&blake2s(&preimage))
}

#[test]
fn device_and_processor_mix_alike() {
    for n in [0, 1, 9, 10, 11, 25] {
        let felts: Vec<SecureField> = (0..n).map(|i| felt(i, 2 * i, 3 * i, 7)).collect();
        let before = hash(b"before".to_vec());
        let mut channel = MetalBlake2sChannel::new();
        channel.update_digest(before);
        channel.mix_felts(&felts, hash, mix_by_hash);
        let mut preimage = before.0.to_vec();
        preimage.extend((0..n).flat_map(|i| bytes_of(&[i, 2 * i, 3 * i, 7])));
        assert_eq!(channel.digest().0, blake2s(&preimage));
    }
}
