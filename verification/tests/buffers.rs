//! Buffer pools, columns, packing and twiddle buffers.

use metal_backend::backend::MetalBackend;
use metal_backend::buffer_pool::{BufferPool, GlobalPools, SizeBucket, MAX_PER_BUCKET};
use metal_backend::columns::{
    felts_from_words, felts_to_words, push_column_words, split_at_mid, SecureColumnByCoords,
};
use metal_backend::fields::{BaseField, SecureField};
use metal_backend::kernel::Source;
use metal_backend::packing::pack_columns;
use metal_backend::twiddle_manager::{
    flat_layout, layers_key, FlatTwiddleManager, TwiddleSection,
};

#[test]
fn test_size_bucket() {
    assert_eq!(SizeBucket::for_size(0).size(), 1);
    assert_eq!(SizeBucket::for_size(1).size(), 1);
    assert_eq!(SizeBucket::for_size(2).size(), 2);
    assert_eq!(SizeBucket::for_size(3).size(), 4);
    assert_eq!(SizeBucket::for_size(1024).size(), 1024);
    assert_eq!(SizeBucket::for_size(1025).size(), 2048);
}

#[test]
fn largest_buckets() {
    assert_eq!(SizeBucket::for_size(1 << 63).size(), 1 << 63);
    assert_eq!(SizeBucket::for_size((1 << 63) + 1).log_size, 64);
    assert_eq!(SizeBucket::for_size(u64::MAX).log_size, 64);
}

#[test]
fn returned_buffers_are_reused_last_first() {
    let mut pool: BufferPool<u64> = BufferPool::new();
    let a = pool.checkout(100, |size| size + 1);
    let b = pool.checkout(65, |size| size + 2);
    assert_eq!((*a.buffer(), a.size()), (129, 128));
    assert_eq!((*b.buffer(), b.size()), (130, 128));
    pool.return_buffer(a.bucket, a.buffer);
    pool.return_buffer(b.bucket, b.buffer);
    assert_eq!(pool.stats(), (2, 0, 2));
    assert_eq!(pool.checkout(128, |_| 0).buffer, 130);
    assert_eq!(pool.checkout(128, |_| 0).buffer, 129);
    // The bucket is empty again, and another bucket never had any.
    assert_eq!(pool.checkout(128, |_| 7).buffer, 7);
    assert_eq!(pool.checkout(129, |_| 8).buffer, 8);
    assert_eq!(pool.stats(), (4, 2, 2));
}

#[test]
fn buckets_are_bounded() {
    let mut pool: BufferPool<u32> = BufferPool::new();
    let bucket = SizeBucket::for_size(8);
    for i in 0..20 {
        pool.return_buffer(bucket, i);
    }
    assert_eq!(pool.stats(), (0, 0, 16));
    assert_eq!(MAX_PER_BUCKET, 16);
    assert_eq!(pool.checkout(8, |_| 99).buffer, 15);
    pool.clear();
    assert_eq!(pool.checkout(8, |_| 99).buffer, 99);
    assert_eq!(pool.stats(), (1, 1, 16));
}

#[test]
fn global_pools_are_apart() {
    let mut pools: GlobalPools<u32> = GlobalPools::new();
    pools.shared.return_buffer(SizeBucket { log_size: 3 }, 5);
    assert_eq!(pools.private.checkout(8, |_| 6).buffer, 6);
    assert_eq!(pools.shared.checkout(8, |_| 6).buffer, 5);
}

fn reference_order(i: usize, log: u32) -> usize {
    i.reverse_bits() >> (usize::BITS - log)
}

#[test]
fn test_bit_reverse_base_field_metal_vs_simd() {
    for log_size in 4..=16 {
        let size = 1usize << log_size;
        let data: Vec<BaseField> = (0..size).map(|i| BaseField(i as u32)).collect();
        let mut column = data.clone();
        MetalBackend::bit_reverse_column(&mut column);
        let expected: Vec<BaseField> =
            (0..size).map(|i| data[reference_order(i, log_size)]).collect();
        assert_eq!(column, expected, "Bit reverse mismatch at log_size={log_size}");
    }
}

fn felt(a: u32, b: u32, c: u32, d: u32) -> SecureField {
    SecureField::from_m31_array([BaseField(a), BaseField(b), BaseField(c), BaseField(d)])
}

#[test]
fn test_bit_reverse_secure_field_metal_vs_cpu() {
    for log_size in 4..=14 {
        let size = 1u32 << log_size;
        let data: Vec<SecureField> = (0..size).map(|i| felt(i, i + 1, i + 2, i + 3)).collect();
        let mut column = data.clone();
        MetalBackend::bit_reverse_column(&mut column);
        let expected: Vec<SecureField> =
            (0..size as usize).map(|i| data[reference_order(i, log_size)]).collect();
        assert_eq!(column, expected, "Secure field bit reverse mismatch at log_size={log_size}");
    }
}

#[test]
fn bit_reversal_undoes_itself() {
    let data: Vec<BaseField> = (0..64).map(BaseField).collect();
    let mut column = data.clone();
    MetalBackend::bit_reverse_column(&mut column);
    assert_ne!(column, data);
    MetalBackend::bit_reverse_column(&mut column);
    assert_eq!(column, data);
}

#[test]
fn no_device_without_metal() {
    assert!(!MetalBackend::is_available());
}

#[test]
fn test_column_from_iter_roundtrip() {
    let data: Vec<BaseField> = (0..1024).map(BaseField).collect();
    let mut words = vec![];
    push_column_words(&mut words, &data);
    let col: Vec<BaseField> = words.iter().copied().map(BaseField).collect();
    assert_eq!(col.len(), 1024);
    for i in 0..1024 {
        assert_eq!(col[i], data[i]);
    }
}

#[test]
fn secure_columns_hold_their_elements() {
    let data: Vec<SecureField> = (0..1024).map(|i| felt(i, i + 1, i + 2, i + 3)).collect();
    let col = SecureColumnByCoords::from_felts(&data);
    assert_eq!(col.len(), 1024);
    for i in 0..1024 {
        assert_eq!(col.at(i), data[i]);
    }
}

#[test]
fn test_column_split_at_mid() {
    let data: Vec<BaseField> = (0..1024).map(BaseField).collect();
    let (left, right) = split_at_mid(data.clone());
    assert_eq!(left.len(), 512);
    assert_eq!(right.len(), 512);
    for i in 0..512 {
        assert_eq!(left[i], data[i]);
        assert_eq!(right[i], data[i + 512]);
    }
}

#[test]
fn columns_are_set_in_place() {
    let mut col = SecureColumnByCoords::from_felts(&[felt(1, 2, 3, 4), felt(5, 6, 7, 8)]);
    col.set(1, felt(9, 10, 11, 12));
    assert_eq!(col.at(0), felt(1, 2, 3, 4));
    assert_eq!(col.at(1), felt(9, 10, 11, 12));
}

#[test]
fn elements_survive_as_words() {
    let felts = vec![felt(1, 2, 3, 4), felt(5, 6, 7, 0x7fff_fffe)];
    let words = felts_to_words(&felts);
    assert_eq!(words, vec![1, 2, 3, 4, 5, 6, 7, 0x7fff_fffe]);
    assert_eq!(felts_from_words(&words, 2), felts);
    // Words that are not canonical are reduced.
    assert_eq!(felts_from_words(&[0x7fff_ffff, 0x8000_0000, 0, 1], 1), vec![felt(0, 1, 0, 1)]);
}

#[test]
fn columns_are_packed_one_after_the_other() {
    let a = [BaseField(1), BaseField(2)];
    let b = [BaseField(3)];
    let c = [BaseField(4), BaseField(5), BaseField(6), BaseField(7)];
    let packed = pack_columns(&[&a, &b, &c]);
    assert_eq!(packed.words, vec![1, 2, 3, 4, 5, 6, 7]);
    assert_eq!(packed.offsets, vec![0, 2, 3]);
    assert_eq!(packed.log_sizes, vec![1, 0, 2]);
}

#[test]
fn layers_are_laid_out_flat() {
    let layout = flat_layout(&[&[1, 2, 3], &[], &[4]]);
    assert_eq!(layout.words, vec![1, 2, 3, 4]);
    assert_eq!(layout.total_size, 16);
    assert_eq!(
        layout.sections,
        vec![
            TwiddleSection { offset: 0, len: 3 },
            TwiddleSection { offset: 12, len: 0 },
            TwiddleSection { offset: 12, len: 1 },
        ]
    );
}

fn words_of(source: Source) -> Vec<u32> {
    match source {
        Source::Words(words) => words,
        Source::Fresh(size) => vec![0; size as usize / 4],
        other => panic!("unexpected buffer {other:?}"),
    }
}

#[test]
fn flat_buffers_are_cached() {
    let mut manager: FlatTwiddleManager<Vec<u32>> = FlatTwiddleManager::new();
    let layers: [&[u32]; 2] = [&[1, 2, 3], &[4]];
    let first = manager.get_or_create_flat_buffer(words_of, &layers);
    assert_eq!(first.buffer, vec![1, 2, 3, 4]);
    assert_eq!(first.total_size, 16);
    let again = manager.get_or_create_flat_buffer(|_| vec![99], &layers);
    assert_eq!(again.buffer, vec![1, 2, 3, 4]);
    manager.clear_cache();
    let fresh = manager.get_or_create_flat_buffer(|_| vec![99], &layers);
    assert_eq!(fresh.buffer, vec![99]);
    assert_eq!(fresh.sections[1], TwiddleSection { offset: 12, len: 1 });
}

#[test]
fn empty_layers_get_one_word() {
    let mut manager: FlatTwiddleManager<Vec<u32>> = FlatTwiddleManager::default();
    let empty = manager.get_or_create_flat_buffer(words_of, &[]);
    assert_eq!(empty.buffer, vec![0]);
    assert_eq!(empty.total_size, 0);
    assert!(empty.sections.is_empty());
}

#[test]
fn layers_with_one_key_are_told_apart() {
    let mut manager: FlatTwiddleManager<Vec<u32>> = FlatTwiddleManager::new();
    let (first, second): ([&[u32]; 1], [&[u32]; 1]) = ([&[1, 2, 3, 4, 5]], [&[1, 9, 3, 4, 5]]);
    assert_eq!(layers_key(&first), layers_key(&second));
    assert_eq!(manager.get_or_create_flat_buffer(words_of, &first).buffer, vec![1, 2, 3, 4, 5]);
    let other = manager.get_or_create_flat_buffer(words_of, &second);
    assert_eq!(other.buffer, vec![1, 9, 3, 4, 5]);
    assert_eq!(other.sections, vec![TwiddleSection { offset: 0, len: 5 }]);
    assert_eq!(other.total_size, 20);
    // The newer layers are the cached ones now; the older ones are packed again.
    let cached = manager.get_or_create_flat_buffer(|_| panic!("cached"), &second);
    assert_eq!(cached.buffer, vec![1, 9, 3, 4, 5]);
    assert_eq!(manager.get_or_create_flat_buffer(words_of, &first).buffer, vec![1, 2, 3, 4, 5]);
}

#[test]
fn keys_depend_on_lengths_and_samples() {
    let base = layers_key(&[&[1, 2, 3, 4]]);
    assert_eq!(base, layers_key(&[&[1, 9, 3, 4]]));
    assert_ne!(base, layers_key(&[&[1, 2, 3, 5]]));
    assert_ne!(base, layers_key(&[&[5, 2, 3, 4]]));
    assert_ne!(base, layers_key(&[&[1, 2, 9, 4]]));
    assert_ne!(base, layers_key(&[&[1, 2, 3], &[4]]));
}
