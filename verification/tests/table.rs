use hashlife_fast::largekey_table::LargeKeyTable;

#[test]
fn test_hash_insertions() {
    let basekey: u128 = 0x8fab04dd8336fe8b33e4424a0d9e3e97;
    let mut table: LargeKeyTable<i32> = LargeKeyTable::new(1, u128::MAX, 0);
    const MAX_CHECK: usize = 5;
    for i in 0..MAX_CHECK {
        table.add(basekey.wrapping_mul((i * i) as u128), i as i32);
    }
    let mut x = 0;
    for j in 0..MAX_CHECK * MAX_CHECK {
        assert_eq!(table.get(basekey.wrapping_mul(j as u128)).is_some(), x * x == j);
        if x * x == j {
            x += 1;
        }
    }
}

#[test]
fn largekey_table_test_hash_insertions() {
    let basekey: u128 = 0x8fab04dd8336fe8b33e4424a0d9e3e97;
    let mut table: LargeKeyTable<i32> = LargeKeyTable::new(1, 0xcc, 0xccccccc);
    const MAX_CHECK: usize = 5;
    for i in 0..MAX_CHECK {
        table.add(basekey + (i * i) as u128, i as i32);
    }
    let mut x = 0;
    for j in 0..MAX_CHECK * MAX_CHECK {
        assert_eq!(table.get(basekey + j as u128).is_some(), x * x == j);
        if x * x == j {
            x += 1;
        }
    }
}

#[test]
fn table_starts_empty() {
    let table: LargeKeyTable<u64> = LargeKeyTable::new(3, u128::MAX, 0);
    assert_eq!(table.len(), 0);
    assert_eq!(table.size_log2(), 3);
    assert_eq!(table.get(17), None);
    assert_eq!(table.get(u128::MAX), None);
    assert!(table.iter().is_empty());
    assert!(table.has_room());
}

#[test]
fn table_round_trip_across_growth() {
    let mut table: LargeKeyTable<u64> = LargeKeyTable::new(1, u128::MAX, 0);
    let n: u64 = 5000;
    let mut key: u128 = 0x243f6a8885a308d313198a2e03707344;
    let mut keys: Vec<u128> = Vec::new();
    for i in 0..n {
        key = key.wrapping_mul(0x9e3779b97f4a7c15f39cc0605cedc835).wrapping_add(i as u128 + 1);
        keys.push(key);
        table.add(key, i * 3 + 1);
        assert_eq!(table.get(key), Some(i * 3 + 1));
    }
    keys.sort();
    keys.dedup();
    assert_eq!(keys.len(), n as usize);
    assert_eq!(table.len(), n as usize);
    assert!(table.size_log2() >= 13);
    let mut key: u128 = 0x243f6a8885a308d313198a2e03707344;
    for i in 0..n {
        key = key.wrapping_mul(0x9e3779b97f4a7c15f39cc0605cedc835).wrapping_add(i as u128 + 1);
        assert_eq!(table.get(key), Some(i * 3 + 1));
        assert_eq!(table.get(key ^ 1), None);
    }
}

#[test]
fn table_add_overwrites_the_value_only() {
    let mut table: LargeKeyTable<u8> = LargeKeyTable::new(1, 0, 0);
    table.add(5, 1);
    table.add(6, 2);
    table.add(5, 3);
    assert_eq!(table.len(), 2);
    assert_eq!(table.get(5), Some(3));
    assert_eq!(table.get(6), Some(2));
}

#[test]
fn table_with_keys_that_share_their_low_bits() {
    let mut table: LargeKeyTable<usize> = LargeKeyTable::new(1, u128::MAX, 0);
    for i in 0..300usize {
        table.add((i as u128) << 64, i);
    }
    for i in 0..300usize {
        assert_eq!(table.get((i as u128) << 64), Some(i));
    }
    assert_eq!(table.get(300u128 << 64), None);
    assert_eq!(table.len(), 300);
}

#[test]
fn table_small_keys_are_found_by_the_sweep() {
    let mut table: LargeKeyTable<u32> = LargeKeyTable::new(2, u128::MAX, 0);
    for i in 0..64u32 {
        table.add((i as u128) * 4, i);
    }
    for i in 0..64u32 {
        assert_eq!(table.get((i as u128) * 4), Some(i));
        assert_eq!(table.get((i as u128) * 4 + 1), None);
    }
}

#[test]
fn table_iter_gives_every_pair_once() {
    let mut table: LargeKeyTable<u32> = LargeKeyTable::new(1, u128::MAX, 0);
    for i in 0..100u32 {
        table.add(0xabcdef0123456789u128.wrapping_mul(i as u128 + 7), i);
    }
    let mut pairs = table.iter();
    assert_eq!(pairs.len(), 100);
    pairs.sort_by_key(|p| p.1);
    for i in 0..100u32 {
        assert_eq!(pairs[i as usize], (0xabcdef0123456789u128.wrapping_mul(i as u128 + 7), i));
    }
}

#[test]
fn table_get_mut_changes_the_value_in_place() {
    let mut table: LargeKeyTable<u32> = LargeKeyTable::new(1, u128::MAX, 0);
    for i in 0..50u32 {
        table.add(0x1234_5678_9abc_def0_1357_9bdf_0246_8aceu128.wrapping_mul(i as u128 + 1), i);
    }
    let key = 0x1234_5678_9abc_def0_1357_9bdf_0246_8aceu128.wrapping_mul(8);
    assert_eq!(table.get_mut(key).map(|v| *v), Some(7));
    *table.get_mut(key).unwrap() = 700;
    assert_eq!(table.get(key), Some(700));
    assert_eq!(table.len(), 50);
    assert!(table.get_mut(12345).is_none());
    assert!(table.get_mut(u128::MAX).is_none());
    let other = 0x1234_5678_9abc_def0_1357_9bdf_0246_8aceu128.wrapping_mul(9);
    assert_eq!(table.get(other), Some(8));
}

#[test]
fn table_doubles_when_half_of_the_slots_are_in_use() {
    let mut table: LargeKeyTable<u8> = LargeKeyTable::new(1, u128::MAX, 0);
    let mut sizes = Vec::new();
    for i in 0..9u128 {
        table.add((i + 1) << 70, 0);
        sizes.push(table.size_log2());
    }
    assert_eq!(sizes, vec![2, 3, 3, 4, 4, 4, 4, 5, 5]);
    // storing under a key of the table again does not count
    table.add(1 << 70, 1);
    assert_eq!(table.size_log2(), 5);
    let mut single: LargeKeyTable<u8> = LargeKeyTable::new(0, u128::MAX, 0);
    assert_eq!(single.size_log2(), 0);
    single.add(7, 7);
    assert_eq!(single.size_log2(), 2);
    assert_eq!(single.get(7), Some(7));
}
