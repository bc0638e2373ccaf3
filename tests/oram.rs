use std::collections::HashMap;

use oram::bitonic::bitonic_sort_by_keys;
use oram::bucket::{PathOramBlock, PositionBlock, DUMMY_ADDRESS};
use oram::path_oram::{random_leaf, PathOram};
use oram::position_map::{LinearPositionMap, PositionMap};
use oram::shuffle::{invert_permutation_oblivious, random_permutation_of_0_through_n_exclusive};
use oram::stash::ObliviousStash;
use oram::tree::{checked_log2, first_leaf, node_on_path};
use oram::{BlockValue, DefaultOram, Oram, OramBlock, OramError};
use rand::rngs::StdRng;
use rand::seq::SliceRandom;
use rand::{Rng, SeedableRng};

type Oram64 = PathOram<BlockValue<64>, 4, 64, 64>;
type SmallOram = PathOram<u64, 4, 64, 64>;

fn bytes(b: u8) -> BlockValue<64> {
    BlockValue::new([b; 64])
}

fn real_blocks<V: OramBlock, const Z: usize, const AB: usize, const RT: u64>(
    oram: &PathOram<V, Z, AB, RT>,
) -> u64 {
    let mut count = 0;
    for i in 0..oram.physical_memory.capacity() {
        let bucket = oram.physical_memory.peek(i);
        for block in bucket.blocks.iter() {
            if block.address != DUMMY_ADDRESS {
                count += 1;
            }
        }
    }
    count + oram.stash.occupancy()
}

#[test]
fn read_write_read_on_fresh_oram() {
    let mut rng = StdRng::seed_from_u64(0);
    let mut oram = Oram64::new(64, &mut rng).unwrap();
    assert_eq!(oram.read(0, &mut rng).unwrap(), bytes(0));
    assert_eq!(oram.write(0, bytes(1), &mut rng).unwrap(), bytes(0));
    assert_eq!(oram.read(0, &mut rng).unwrap(), bytes(1));
}

#[test]
fn write_all_then_read_shuffled() {
    let mut rng = StdRng::seed_from_u64(1);
    let mut oram = Oram64::new(64, &mut rng).unwrap();
    for i in 0..64u64 {
        assert_eq!(oram.write(i, bytes(i as u8), &mut rng).unwrap(), bytes(0));
    }
    let mut order: Vec<u64> = (0..64).collect();
    order.shuffle(&mut rng);
    for i in order {
        assert_eq!(oram.read(i, &mut rng).unwrap(), bytes(i as u8));
    }
}

#[test]
fn bucket_accesses_per_read() {
    let mut rng = StdRng::seed_from_u64(2);
    let mut oram = Oram64::new(64, &mut rng).unwrap();
    assert_eq!(oram.height, 5);
    for address in [0u64, 17, 63, 17] {
        let reads = oram.physical_memory.read_count();
        let writes = oram.physical_memory.write_count();
        oram.read(address, &mut rng).unwrap();
        assert_eq!(oram.physical_memory.read_count() - reads, 6);
        assert_eq!(oram.physical_memory.write_count() - writes, 6);
    }
}

#[test]
fn recursive_position_map_read_after_write() {
    let mut rng = StdRng::seed_from_u64(3);
    let mut oram = Oram64::new(4096, &mut rng).unwrap();
    assert!(matches!(oram.position_map, PositionMap::Recursive(_)));
    oram.write(42, bytes(7), &mut rng).unwrap();
    assert_eq!(oram.read(42, &mut rng).unwrap(), bytes(7));
    assert_eq!(oram.read(43, &mut rng).unwrap(), bytes(0));
}

#[test]
fn construction_and_bounds_errors() {
    let mut rng = StdRng::seed_from_u64(4);
    assert_eq!(Oram64::new(63, &mut rng).err(), Some(OramError::InvalidConfigurationError));
    assert_eq!(Oram64::new(0, &mut rng).err(), Some(OramError::InvalidConfigurationError));
    assert_eq!(Oram64::new(1, &mut rng).err(), Some(OramError::InvalidConfigurationError));
    assert!(Oram64::new(2, &mut rng).is_ok());
    let mut oram = Oram64::new(64, &mut rng).unwrap();
    let result = oram.access(64, |v: &BlockValue<64>| *v, &mut rng);
    assert_eq!(result.err(), Some(OramError::AddressOutOfBoundsError));
    assert_eq!(oram.read(1000, &mut rng).err(), Some(OramError::AddressOutOfBoundsError));
}

#[test]
fn stash_occupancy_stays_within_overflow() {
    let mut rng = StdRng::seed_from_u64(5);
    let mut oram = PathOram::<u64, 4, 64, 64>::new(1024, &mut rng).unwrap();
    for step in 0..10_000u64 {
        let address = rng.gen_range(0..1024);
        oram.write(address, step, &mut rng).unwrap();
        assert!(oram.stash.occupancy() <= 40);
    }
}

#[test]
fn read_your_writes_against_a_model() {
    let mut rng = StdRng::seed_from_u64(6);
    let mut oram = SmallOram::new(128, &mut rng).unwrap();
    let mut model: HashMap<u64, u64> = HashMap::new();
    for step in 0..2_000u64 {
        let address = rng.gen_range(0..128);
        let expected = *model.get(&address).unwrap_or(&0);
        if rng.gen_bool(0.5) {
            assert_eq!(oram.write(address, step + 1, &mut rng).unwrap(), expected);
            model.insert(address, step + 1);
        } else {
            assert_eq!(oram.read(address, &mut rng).unwrap(), expected);
        }
    }
}

#[test]
fn access_applies_callback_and_returns_previous_value() {
    let mut rng = StdRng::seed_from_u64(7);
    let mut oram = SmallOram::new(16, &mut rng).unwrap();
    assert_eq!(oram.access(3, |v: &u64| v + 10, &mut rng).unwrap(), 0);
    assert_eq!(oram.access(3, |v: &u64| v * 3, &mut rng).unwrap(), 10);
    assert_eq!(oram.read(3, &mut rng).unwrap(), 30);
}

#[test]
fn occupancy_of_tree_and_stash_is_constant() {
    let mut rng = StdRng::seed_from_u64(8);
    let mut oram = SmallOram::new(256, &mut rng).unwrap();
    assert_eq!(real_blocks(&oram), 256);
    for step in 0..500u64 {
        let address = rng.gen_range(0..256);
        oram.write(address, step, &mut rng).unwrap();
        assert_eq!(real_blocks(&oram), 256);
    }
}

#[test]
fn no_stash_growth_over_many_accesses() {
    let mut rng = StdRng::seed_from_u64(9);
    let mut oram = SmallOram::new(64, &mut rng).unwrap();
    let initial = oram.stash.len();
    assert_eq!(initial, 4 * 6 + 40);
    for _ in 0..100_000 {
        let address = rng.gen_range(0..64);
        oram.read(address, &mut rng).unwrap();
    }
    assert_eq!(oram.stash.len(), initial);
}

#[test]
fn fresh_leaves_are_uniform() {
    let mut rng = StdRng::seed_from_u64(10);
    let height = 4;
    let mut counts = [0u64; 16];
    let draws = 16_000u64;
    for _ in 0..draws {
        let leaf = random_leaf(height, &mut rng);
        assert!((16..32).contains(&leaf));
        counts[(leaf - 16) as usize] += 1;
    }
    let expected = (draws / 16) as f64;
    let chi_square: f64 = counts
        .iter()
        .map(|&c| {
            let d = c as f64 - expected;
            d * d / expected
        })
        .sum();
    // 15 degrees of freedom: the 0.999 quantile is about 37.7.
    assert!(chi_square < 37.7, "chi square {}", chi_square);
}

#[test]
fn linear_position_map_round_trip() {
    let mut map = LinearPositionMap::new(8);
    assert_eq!(map.write(3, 17), 0);
    assert_eq!(map.write(3, 19), 17);
    assert_eq!(map.write(3, 23), 19);
    assert_eq!(map.write(4, 5), 0);
    assert_eq!(map.write(3, 2), 23);
}

#[test]
fn recursive_position_map_round_trip() {
    let mut rng = StdRng::seed_from_u64(11);
    let leaves: Vec<u64> = (0..4096u64).map(|a| 2048 + a / 2).collect();
    let mut map = PositionMap::<64, 4, 64>::new_with_leaves(&leaves, &mut rng).unwrap();
    assert!(matches!(map, PositionMap::Recursive(_)));
    map.write(1000, 40, &mut rng).unwrap();
    assert_eq!(map.write(1000, 41, &mut rng).unwrap(), 40);
    assert_eq!(map.write(1000, 42, &mut rng).unwrap(), 41);
    assert_eq!(map.write(1001, 9, &mut rng).unwrap(), 2048 + 500);
    assert_eq!(map.write(4095, 9, &mut rng).unwrap(), 2048 + 2047);
}

#[test]
fn position_block_entries() {
    let block = PositionBlock::<4> { data: [1, 2, 3, 4] };
    assert_eq!(block.entry(2), 3);
    assert_eq!(block.with_entry(1, 9).data, [1, 9, 3, 4]);
}

#[test]
fn bitonic_sort_matches_sort_by_key() {
    let mut rng = StdRng::seed_from_u64(12);
    for n in [0usize, 1, 2, 3, 5, 7, 8, 13, 64, 100, 1000, 1024] {
        let mut keys: Vec<u64> = (0..n as u64).collect();
        keys.shuffle(&mut rng);
        let mut items: Vec<u64> = keys.iter().map(|k| k * 10 + 1).collect();
        let mut expected: Vec<(u64, u64)> = keys.iter().cloned().zip(items.iter().cloned()).collect();
        expected.sort_by_key(|p| p.0);
        bitonic_sort_by_keys(&mut items, &mut keys);
        let got: Vec<(u64, u64)> = keys.into_iter().zip(items).collect();
        assert_eq!(got, expected);
    }
}

#[test]
fn bitonic_sort_with_repeated_keys() {
    let mut rng = StdRng::seed_from_u64(13);
    for n in [6usize, 31, 200, 513] {
        let mut keys: Vec<u64> = (0..n).map(|_| rng.gen_range(0..5)).collect();
        let mut items: Vec<u64> = (0..n as u64).collect();
        let mut expected: Vec<(u64, u64)> = keys.iter().cloned().zip(items.iter().cloned()).collect();
        expected.sort();
        bitonic_sort_by_keys(&mut items, &mut keys);
        assert!(keys.windows(2).all(|w| w[0] <= w[1]));
        let mut got: Vec<(u64, u64)> = keys.into_iter().zip(items).collect();
        got.sort();
        assert_eq!(got, expected);
    }
}

#[test]
fn permutation_and_its_inverse() {
    let mut rng = StdRng::seed_from_u64(14);
    let permutation = random_permutation_of_0_through_n_exclusive(100, &mut rng);
    let mut sorted = permutation.clone();
    sorted.sort();
    assert_eq!(sorted, (0..100).collect::<Vec<u64>>());
    let inverse = invert_permutation_oblivious(&permutation);
    for i in 0..100 {
        assert_eq!(inverse[permutation[i] as usize] as usize, i);
    }
}

#[test]
fn tree_index_arithmetic() {
    assert_eq!(first_leaf(0), 1);
    assert_eq!(first_leaf(5), 32);
    assert_eq!(node_on_path(45, 0, 5), 1);
    assert_eq!(node_on_path(45, 3, 5), 11);
    assert_eq!(node_on_path(45, 5, 5), 45);
    assert_eq!(checked_log2(64), Some(6));
    assert_eq!(checked_log2(1), Some(0));
    assert_eq!(checked_log2(63), None);
    assert_eq!(checked_log2(0), None);
    assert_eq!(checked_log2(1u64 << 63), Some(63));
}

#[test]
fn stash_new_sizes_and_overflow() {
    let stash = ObliviousStash::<u64>::new(20, 40).unwrap();
    assert_eq!(stash.len(), 60);
    assert_eq!(stash.path_size(), 20);
    assert_eq!(stash.occupancy(), 0);
    assert_eq!(
        ObliviousStash::<u64>::new(u64::MAX, 1).err(),
        Some(OramError::IntegerConversionError)
    );
}

#[test]
fn default_oram_round_trip() {
    let mut rng = StdRng::seed_from_u64(15);
    let mut oram = DefaultOram::<BlockValue<16>>::new(32, &mut rng).unwrap();
    assert_eq!(oram.block_capacity().unwrap(), 32);
    oram.write(31, BlockValue::new([5; 16]), &mut rng).unwrap();
    assert_eq!(oram.read(31, &mut rng).unwrap().data(), [5; 16]);
}

#[test]
fn too_few_blocks_per_bucket_is_rejected() {
    let mut rng = StdRng::seed_from_u64(16);
    assert_eq!(
        PathOram::<u64, 1, 64, 64>::new(64, &mut rng).err(),
        Some(OramError::InvalidConfigurationError)
    );
}

fn write_then_read_through_trait<O: Oram<u64>>(rng: &mut StdRng) -> (u64, u64, Option<OramError>) {
    let mut oram = O::new(32, rng).unwrap();
    oram.write(7, 70, rng).unwrap();
    let replaced = oram.write(7, 71, rng).unwrap();
    let read = oram.read(7, rng).unwrap();
    let error = oram.access(32, |v: &u64| *v, rng).err();
    (replaced, read, error)
}

#[test]
fn oram_trait_generic_use() {
    let mut rng = StdRng::seed_from_u64(17);
    assert_eq!(
        write_then_read_through_trait::<SmallOram>(&mut rng),
        (70, 71, Some(OramError::AddressOutOfBoundsError))
    );
    assert_eq!(
        <SmallOram as Oram<u64>>::new(12, &mut rng).err(),
        Some(OramError::InvalidConfigurationError)
    );
    let oram = <SmallOram as Oram<u64>>::new(16, &mut rng).unwrap();
    assert_eq!(Oram::block_capacity(&oram).unwrap(), 16);
}

#[test]
fn constant_time_selection_on_every_integer_type() {
    assert_eq!(<u8 as OramBlock>::conditional_select(&1, &2, true), 2);
    assert_eq!(<u8 as OramBlock>::conditional_select(&1, &2, false), 1);
    assert_eq!(<u16 as OramBlock>::conditional_select(&300, &400, true), 400);
    assert_eq!(<u16 as OramBlock>::conditional_select(&300, &400, false), 300);
    assert_eq!(<u32 as OramBlock>::conditional_select(&7, &9, true), 9);
    assert_eq!(<u32 as OramBlock>::conditional_select(&7, &9, false), 7);
    assert_eq!(<u64 as OramBlock>::conditional_select(&u64::MAX, &3, true), 3);
    assert_eq!(<u64 as OramBlock>::conditional_select(&u64::MAX, &3, false), u64::MAX);
    assert_eq!(<i8 as OramBlock>::conditional_select(&-1, &5, true), 5);
    assert_eq!(<i8 as OramBlock>::conditional_select(&-1, &5, false), -1);
    assert_eq!(<i16 as OramBlock>::conditional_select(&-300, &5, true), 5);
    assert_eq!(<i16 as OramBlock>::conditional_select(&-300, &5, false), -300);
    assert_eq!(<i32 as OramBlock>::conditional_select(&-70000, &5, true), 5);
    assert_eq!(<i32 as OramBlock>::conditional_select(&-70000, &5, false), -70000);
    assert_eq!(<i64 as OramBlock>::conditional_select(&i64::MIN, &5, true), 5);
    assert_eq!(<i64 as OramBlock>::conditional_select(&i64::MIN, &5, false), i64::MIN);
    let a = BlockValue::new([1u8; 64]);
    let b = BlockValue::new([2u8; 64]);
    assert_eq!(<BlockValue<64> as OramBlock>::conditional_select(&a, &b, true), b);
    assert_eq!(<BlockValue<64> as OramBlock>::conditional_select(&a, &b, false), a);
    assert_eq!(<BlockValue<64> as OramBlock>::default_value(), BlockValue::new([0u8; 64]));
}

#[test]
fn dummy_blocks_are_recognised() {
    let dummy = PathOramBlock::<u64>::dummy();
    assert!(dummy.ct_is_dummy());
    let real = PathOramBlock { value: 0u64, address: 3, position: 8 };
    assert!(!real.ct_is_dummy());
    assert!(oram::ct::ct_and(true, true));
    assert!(!oram::ct::ct_and(true, false));
    assert!(oram::ct::ct_or(false, true));
    assert!(!oram::ct::ct_or(false, false));
}

#[test]
fn bitonic_sort_is_not_stable_on_equal_keys() {
    let mut keys = vec![1u64, 0, 0];
    let mut items = vec![0u64, 1, 2];
    bitonic_sort_by_keys(&mut items, &mut keys);
    assert_eq!(keys, vec![0, 0, 1]);
    assert_eq!(items, vec![2, 1, 0]);
}

#[test]
fn construction_with_values_and_smallest_capacity() {
    let mut rng = StdRng::seed_from_u64(18);
    let mut oram = SmallOram::new_with_values(4, &vec![10, 11, 12, 13], &mut rng).unwrap();
    for a in 0..4u64 {
        assert_eq!(oram.read(a, &mut rng).unwrap(), 10 + a);
    }
    let mut two = SmallOram::new(2, &mut rng).unwrap();
    assert_eq!(two.write(1, 5, &mut rng).unwrap(), 0);
    assert_eq!(two.read(1, &mut rng).unwrap(), 5);
    assert_eq!(
        SmallOram::new_with_values(3, &vec![1, 2, 3], &mut rng).err(),
        Some(OramError::InvalidConfigurationError)
    );
}
