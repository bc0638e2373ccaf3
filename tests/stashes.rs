use oram::bitonic_stash::BitonicStash;
use oram::bucket::{Bucket, PathOramBlock};
use oram::database::CountAccessesDatabase;
use oram::stash::{ObliviousStash, Stash};
use oram::tree::ct_common_ancestor_depth;
use oram::OramError;

fn tree_with_block(address: u64, leaf: u64, value: u64) -> CountAccessesDatabase<Bucket<u64, 4>> {
    let mut memory = CountAccessesDatabase::new(8, Bucket::<u64, 4>::empty());
    let mut bucket = Bucket::<u64, 4>::empty();
    bucket.blocks[0] = PathOramBlock { value, address, position: leaf };
    memory.write_db(leaf as usize, bucket);
    memory
}

fn real_in_tree(memory: &CountAccessesDatabase<Bucket<u64, 4>>) -> Vec<(usize, u64, u64)> {
    let mut found = Vec::new();
    for i in 0..memory.capacity() {
        for block in memory.peek(i).blocks.iter() {
            if !block.ct_is_dummy() {
                found.push((i, block.address, block.value));
            }
        }
    }
    found
}

#[test]
fn bitonic_stash_needs_power_of_two_size() {
    assert_eq!(
        BitonicStash::<u64>::new(20, 40).err(),
        Some(OramError::InvalidConfigurationError)
    );
    let stash = BitonicStash::<u64>::new(24, 40).unwrap();
    assert_eq!(stash.len(), 64);
    assert_eq!(stash.occupancy(), 0);
    assert_eq!(
        BitonicStash::<u64>::new(u64::MAX, 1).err(),
        Some(OramError::IntegerConversionError)
    );
}

#[test]
fn bitonic_stash_round_trip_through_path() {
    let mut memory = tree_with_block(5, 6, 9);
    let mut stash = BitonicStash::<u64>::new(12, 4).unwrap();
    stash.read_from_path(&mut memory, 6).unwrap();
    assert_eq!(memory.read_count(), 3);
    assert_eq!(stash.access(5, 7, |v: &u64| v + 1).unwrap(), 9);
    assert_eq!(stash.access(4, 7, |v: &u64| v + 1).unwrap(), 0);
    stash.write_to_path(&mut memory, 6).unwrap();
    assert_eq!(memory.write_count(), 4);
    // Leaves 6 and 7 share the ancestor 3 at depth 1.
    assert_eq!(real_in_tree(&memory), vec![(3, 5, 10)]);
    assert_eq!(stash.occupancy(), 0);
    stash.read_from_path(&mut memory, 7).unwrap();
    assert_eq!(stash.access(5, 4, |v: &u64| *v).unwrap(), 10);
}

#[test]
fn oblivious_stash_round_trip_through_path() {
    let mut memory = tree_with_block(5, 6, 9);
    let mut stash = ObliviousStash::<u64>::new(12, 4).unwrap();
    stash.read_from_path(&mut memory, 6).unwrap();
    assert_eq!(stash.access(5, 7, |v: &u64| v * 2).unwrap(), 9);
    stash.write_to_path(&mut memory, 6).unwrap();
    // The block is now assigned to leaf 7: its deepest bucket on the path to 6 is node 3.
    assert_eq!(real_in_tree(&memory), vec![(3, 5, 18)]);
    stash.read_from_path(&mut memory, 7).unwrap();
    assert_eq!(stash.access(5, 4, |v: &u64| *v).unwrap(), 18);
}

#[test]
fn oblivious_stash_writes_a_missing_address_into_the_last_slot() {
    let mut memory = CountAccessesDatabase::new(8, Bucket::<u64, 4>::empty());
    let mut stash = ObliviousStash::<u64>::new(12, 4).unwrap();
    stash.read_from_path(&mut memory, 5).unwrap();
    assert_eq!(stash.access(2, 4, |_v: &u64| 77).unwrap(), 0);
    assert_eq!(stash.occupancy(), 1);
    stash.write_to_path(&mut memory, 5).unwrap();
    // Leaves 4 and 5 share node 2 at depth 1.
    assert_eq!(real_in_tree(&memory), vec![(2, 2, 77)]);
    assert_eq!(stash.occupancy(), 0);
}

#[test]
fn overflowing_blocks_stay_in_the_stash() {
    // Six blocks of leaf 4 and only the root and node 2 in common with leaf 7's path:
    // the root holds four, two stay in the stash.
    let mut memory = CountAccessesDatabase::new(8, Bucket::<u64, 4>::empty());
    let mut stash = ObliviousStash::<u64>::new(12, 8).unwrap();
    stash.read_from_path(&mut memory, 7).unwrap();
    for address in 0..6u64 {
        assert_eq!(stash.access(address, 4, |_v: &u64| 100 + address).unwrap(), 0);
        stash.write_to_path(&mut memory, 7).unwrap();
        stash.read_from_path(&mut memory, 7).unwrap();
    }
    stash.write_to_path(&mut memory, 7).unwrap();
    let in_tree = real_in_tree(&memory);
    assert_eq!(in_tree.len(), 4);
    assert!(in_tree.iter().all(|&(node, _, _)| node == 1));
    assert_eq!(stash.occupancy(), 2);
}

#[test]
fn common_ancestor_depths() {
    assert_eq!(ct_common_ancestor_depth(45, 45, 5), 5);
    assert_eq!(ct_common_ancestor_depth(45, 44, 5), 4);
    assert_eq!(ct_common_ancestor_depth(45, 32, 5), 1);
    assert_eq!(ct_common_ancestor_depth(63, 32, 5), 0);
}

fn round_trip_through_trait<S: Stash<u64>>() -> (u64, u64) {
    let mut memory = tree_with_block(5, 6, 9);
    let mut stash = S::new(12, 4).unwrap();
    stash.read_from_path(&mut memory, 6).unwrap();
    let first = stash.access(5, 7, |v: &u64| v + 3).unwrap();
    stash.write_to_path(&mut memory, 6).unwrap();
    stash.read_from_path(&mut memory, 7).unwrap();
    let second = stash.access(5, 7, |v: &u64| *v).unwrap();
    (first, second)
}

#[test]
fn both_stashes_through_the_trait() {
    assert_eq!(round_trip_through_trait::<ObliviousStash<u64>>(), (9, 12));
    assert_eq!(round_trip_through_trait::<BitonicStash<u64>>(), (9, 12));
    assert_eq!(<BitonicStash<u64> as Stash<u64>>::new(12, 4).unwrap().occupancy(), 0);
}
