use hashlife_fast::point::Point;
use hashlife_fast::quadtree::TreeData;
use hashlife_fast::quadvalue::{node_is_raw, QuadTreeNode, QuadTreeValue, NULL_KEY};
use hashlife_fast::rle::{parse_fle_file, write_rle};
use hashlife_fast::stepper::full_steps;
use hashlife_fast::store::{NodeStore, StoreError};
use std::collections::HashSet;

fn naive_generation(cells: &HashSet<(i64, i64)>) -> HashSet<(i64, i64)> {
    let mut candidates: HashSet<(i64, i64)> = HashSet::new();
    for &(x, y) in cells.iter() {
        for dy in -1..=1 {
            for dx in -1..=1 {
                candidates.insert((x + dx, y + dy));
            }
        }
    }
    let mut next = HashSet::new();
    for &(x, y) in candidates.iter() {
        let mut n = 0;
        for dy in -1..=1 {
            for dx in -1..=1 {
                if (dx, dy) != (0, 0) && cells.contains(&(x + dx, y + dy)) {
                    n += 1;
                }
            }
        }
        if n == 3 || (n == 2 && cells.contains(&(x, y))) {
            next.insert((x, y));
        }
    }
    next
}

fn naive(cells: &HashSet<(i64, i64)>, n: u64) -> HashSet<(i64, i64)> {
    let mut cur = cells.clone();
    for _ in 0..n {
        cur = naive_generation(&cur);
    }
    cur
}

fn as_set(points: &Vec<Point>) -> HashSet<(i64, i64)> {
    points.iter().map(|p| (p.x, p.y)).collect()
}

fn as_points(cells: &[(i64, i64)]) -> Vec<Point> {
    cells.iter().map(|&(x, y)| Point { x, y }).collect()
}

fn sorted(points: &Vec<Point>) -> Vec<Point> {
    let mut v = points.clone();
    v.sort();
    v
}

const GLIDER: [(i64, i64); 5] = [(1, 0), (2, 1), (0, 2), (1, 2), (2, 2)];
const R_PENTOMINO: [(i64, i64); 5] = [(1, 0), (2, 0), (0, 1), (1, 1), (1, 2)];

#[test]
fn points_are_ordered_row_by_row() {
    let mut v = as_points(&[(5, 1), (0, 2), (7, 0), (-3, 1)]);
    v.sort();
    assert_eq!(v, as_points(&[(7, 0), (-3, 1), (5, 1), (0, 2)]));
    assert!(Point { x: 9, y: 0 }.precedes(&Point { x: 0, y: 1 }));
    assert!(Point { x: 0, y: 1 }.precedes(&Point { x: 1, y: 1 }));
    assert!(!Point { x: 1, y: 1 }.precedes(&Point { x: 1, y: 1 }));
    assert_eq!(Point { x: 1, y: 2 }.translate(Point { x: -4, y: 7 }), Point { x: -3, y: 9 });
    assert_eq!(Point { x: 1, y: -2 }.neg(), Point { x: -1, y: 2 });
    assert_eq!(Point { x: 3, y: -2 }.times(8), Point { x: 24, y: -16 });
}

#[test]
fn raw_keys_have_no_upper_bits() {
    assert!(node_is_raw(0));
    assert!(node_is_raw(u64::MAX as u128));
    assert!(!node_is_raw(1u128 << 64));
    assert!(!node_is_raw(NULL_KEY));
    let v = QuadTreeValue::from_array(&[1, 2, 3, 4]);
    assert_eq!(v, QuadTreeValue { lt: 1, rt: 2, lb: 3, rb: 4 });
    assert_eq!(v.to_array(), [1, 2, 3, 4]);
    assert!(v.is_raw());
    assert!(!QuadTreeValue { lt: NULL_KEY, rt: 0, lb: 0, rb: 0 }.is_raw());
}

#[test]
fn same_content_same_key() {
    let a = QuadTreeValue { lt: 1, rt: 2, lb: 3, rb: 4 };
    let b = QuadTreeValue { lt: 1, rt: 2, lb: 3, rb: 4 };
    assert_eq!(a.key(), b.key());
    let mut keys = HashSet::new();
    for i in 0..1000u128 {
        for (j, v) in [
            QuadTreeValue { lt: i, rt: 0, lb: 0, rb: 0 },
            QuadTreeValue { lt: 0, rt: i, lb: 0, rb: 0 },
            QuadTreeValue { lt: 0, rt: 0, lb: i, rb: 0 },
            QuadTreeValue { lt: 0, rt: 0, lb: 0, rb: i << 64 },
        ]
        .iter()
        .enumerate()
        {
            if i > 0 || j == 0 {
                assert!(keys.insert(v.key()));
                assert_ne!(v.key(), v.lt);
            }
        }
    }
}

#[test]
fn canonical_keys_in_the_store() {
    let mut store = NodeStore::new();
    assert_eq!(store.node_count(), 0);
    let k1 = store.add_array([1, 2, 3, 4]).unwrap();
    let k2 = store.add_array([1, 2, 3, 4]).unwrap();
    let k3 = store.add_array([1, 2, 3, 5]).unwrap();
    assert_eq!(k1, k2);
    assert_ne!(k1, k3);
    assert_eq!(k1, QuadTreeValue { lt: 1, rt: 2, lb: 3, rb: 4 }.key());
    assert_eq!(store.node_count(), 2);
    let node = store.get(k1).unwrap();
    assert_eq!(
        node,
        QuadTreeNode {
            v: QuadTreeValue { lt: 1, rt: 2, lb: 3, rb: 4 },
            forward_key: NULL_KEY,
            set_count: 5,
        }
    );
    assert_eq!(store.get(k3).unwrap().set_count, 6);
    assert_eq!(store.get(12345), None);
    let top = store.add_array([k1, k3, k1, k1]).unwrap();
    assert_eq!(store.get(top).unwrap().set_count, 21);
    assert_eq!(store.get_set_count(&QuadTreeValue { lt: u64::MAX as u128, rt: 0, lb: 7, rb: 0 }), 67);
    assert_eq!(store.get_set_count(&QuadTreeValue { lt: top, rt: top, lb: k1, rb: k3 }), 53);
}

#[test]
fn keys_that_cannot_name_a_value() {
    let mut store = NodeStore::new();
    let v = QuadTreeValue { lt: 1, rt: 2, lb: 3, rb: 4 };
    let w = QuadTreeValue { lt: 1, rt: 2, lb: 3, rb: 5 };
    assert_eq!(store.intern(v, 77), Err(StoreError::KeyClash(v)));
    assert_eq!(store.intern(v, NULL_KEY), Err(StoreError::KeyClash(v)));
    assert_eq!(store.node_count(), 0);
    let key = 1u128 << 100;
    assert_eq!(store.intern(v, key), Ok(key));
    assert_eq!(store.intern(v, key), Ok(key));
    assert_eq!(store.intern(w, key), Err(StoreError::KeyClash(w)));
    assert_eq!(store.node_count(), 1);
    assert_eq!(store.get(key).unwrap().v, v);
}

#[test]
fn black_keys_are_a_ladder() {
    let mut store = NodeStore::new();
    assert_eq!(store.black_key(0), Ok(0));
    assert_eq!(store.node_count(), 0);
    let b5 = store.black_key(5).unwrap();
    assert_eq!(store.node_count(), 5);
    let mut below = 0u128;
    for d in 1..=5 {
        let key = store.black_key(d).unwrap();
        let node = store.get(key).unwrap();
        assert_eq!(node.v, QuadTreeValue { lt: below, rt: below, lb: below, rb: below });
        assert_eq!(node.set_count, 0);
        assert_eq!(node.forward_key, below);
        assert_eq!(key, node.v.key());
        below = key;
    }
    assert_eq!(below, b5);
    assert_eq!(store.node_count(), 5);
    assert_eq!(store.black_key(40).map(|_| ()), Ok(()));
    assert_eq!(store.node_count(), 40);
}

#[test]
fn steps_at_each_level() {
    assert_eq!(full_steps(0), 4);
    assert_eq!(full_steps(1), 8);
    assert_eq!(full_steps(3), 32);
    assert_eq!(full_steps(61), 1u64 << 63);
}

#[test]
fn an_empty_tree() {
    let mut tree = TreeData::new().unwrap();
    assert_eq!(tree.dump_all_points(), vec![]);
    assert_eq!(tree.num_live_cells(), 0);
    assert_eq!(tree.node_count(), 2);
    tree.garbage_collect();
    assert_eq!(tree.node_count(), 2);
    tree.step_forward(1000).unwrap();
    assert_eq!(tree.dump_all_points(), vec![]);
    let none = TreeData::gather_all_points(&vec![]).unwrap();
    assert_eq!(none.dump_all_points(), vec![]);
}

#[test]
fn glider_after_four_generations() {
    let start = as_points(&GLIDER);
    let mut tree = TreeData::gather_all_points(&start).unwrap();
    assert_eq!(tree.num_live_cells(), 5);
    tree.step_forward(4).unwrap();
    let moved: Vec<Point> = start.iter().map(|p| Point { x: p.x + 1, y: p.y + 1 }).collect();
    assert_eq!(sorted(&tree.dump_all_points()), sorted(&moved));
    assert_eq!(tree.num_live_cells(), 5);
}

#[test]
fn glider_placed_far_from_the_origin() {
    let start: Vec<Point> =
        GLIDER.iter().map(|&(x, y)| Point { x: x + 1_000_003, y: y - 77_777 }).collect();
    let mut tree = TreeData::gather_all_points(&start).unwrap();
    tree.step_forward(4 * 250).unwrap();
    let moved: Vec<Point> = start.iter().map(|p| Point { x: p.x + 250, y: p.y + 250 }).collect();
    assert_eq!(sorted(&tree.dump_all_points()), sorted(&moved));
}

#[test]
fn glider_after_many_generations() {
    let start = as_points(&GLIDER);
    let mut tree = TreeData::gather_all_points(&start).unwrap();
    let quarter_steps: i64 = 1 << 40;
    tree.step_forward(4 * quarter_steps as u64).unwrap();
    let moved: Vec<Point> =
        start.iter().map(|p| Point { x: p.x + quarter_steps, y: p.y + quarter_steps }).collect();
    assert_eq!(sorted(&tree.dump_all_points()), sorted(&moved));
}

#[test]
fn stepping_is_the_rule() {
    let start = as_points(&R_PENTOMINO);
    let cells = as_set(&start);
    for n in [0u64, 1, 2, 3, 4, 5, 7, 8, 9, 16, 31, 32, 33, 100, 150] {
        let mut tree = TreeData::gather_all_points(&start).unwrap();
        tree.step_forward(n).unwrap();
        let got = tree.dump_all_points();
        assert_eq!(as_set(&got), naive(&cells, n));
        assert_eq!(got.len(), as_set(&got).len());
        assert_eq!(tree.num_live_cells(), got.len() as u64);
    }
}

#[test]
fn steps_add_up() {
    let start = as_points(&R_PENTOMINO);
    for (a, b) in [(0u64, 0u64), (1, 1), (3, 5), (8, 8), (17, 40), (64, 1), (100, 200)] {
        let mut once = TreeData::gather_all_points(&start).unwrap();
        once.step_forward(a + b).unwrap();
        let mut twice = TreeData::gather_all_points(&start).unwrap();
        twice.step_forward(a).unwrap();
        twice.step_forward(b).unwrap();
        assert_eq!(sorted(&once.dump_all_points()), sorted(&twice.dump_all_points()));
    }
}

#[test]
fn round_trip_of_points() {
    let sets: Vec<Vec<(i64, i64)>> = vec![
        vec![(0, 0)],
        vec![(7, 7), (8, 8)],
        vec![(-1, -1), (0, 0)],
        vec![(-1000, 5), (1000, -5), (3, 3), (3, 4), (4, 3)],
        vec![(i64::MIN, i64::MIN), (i64::MAX, i64::MAX)],
        vec![(i64::MAX, 0), (i64::MAX - 1, 0), (i64::MAX, 1)],
        vec![(5, 5), (5, 5), (6, 5)],
        (0..40).flat_map(|y| (0..40).filter(move |x| (x * y + x) % 3 == 0).map(move |x| (x - 20, y * 3 - 50))).collect(),
    ];
    for cells in sets {
        let points = as_points(&cells);
        let tree = TreeData::gather_all_points(&points).unwrap();
        let got = tree.dump_all_points();
        assert_eq!(as_set(&got), as_set(&points));
        assert_eq!(got.len(), as_set(&points).len());
        assert_eq!(tree.num_live_cells(), got.len() as u64);
    }
}

#[test]
fn dump_goes_quadrant_by_quadrant() {
    let points = as_points(&[(9, 9), (0, 0), (8, 0), (0, 8), (1, 0), (0, 1), (63, 63)]);
    let tree = TreeData::gather_all_points(&points).unwrap();
    let expected = as_points(&[(0, 0), (1, 0), (0, 1), (8, 0), (0, 8), (9, 9), (63, 63)]);
    assert_eq!(tree.dump_all_points(), expected);
}

#[test]
fn growing_keeps_the_cells() {
    let points = as_points(&[(3, 4), (100, -100), (-5, 17)]);
    let mut tree = TreeData::gather_all_points(&points).unwrap();
    let before = tree.dump_all_points();
    for _ in 0..10 {
        tree.increase_depth().unwrap();
        assert_eq!(tree.dump_all_points(), before);
    }
    assert_eq!(as_set(&before), as_set(&points));
}

#[test]
fn a_tree_that_fills_the_plane_cannot_grow() {
    let points = as_points(&[(i64::MIN, 0), (i64::MAX, 0)]);
    let mut tree = TreeData::gather_all_points(&points).unwrap();
    assert_eq!(tree.increase_depth(), Err(StoreError::OutOfRange));
    let mut edge = TreeData::gather_all_points(&as_points(&[(i64::MAX, 5)])).unwrap();
    assert_eq!(edge.increase_depth(), Err(StoreError::OutOfRange));
    assert_eq!(edge.dump_all_points(), as_points(&[(i64::MAX, 5)]));
    assert_eq!(tree.step_forward(1), Err(StoreError::OutOfRange));
    assert_eq!(as_set(&tree.dump_all_points()), as_set(&points));
}

#[test]
fn main_test_load_dump_points() {
    let contents = "x = 12, y = 8, rule = B3/S23\n5bob2o$4bo6bo$3b2o3bo2bo$2obo5b2o$2obo5b2o$3b2o3bo2bo$4bo6bo$5bob2o!\n";
    let expected = "x = 0, y = 0, rule = B3/S23\n5bob2o$4bo6bo$3b2o3bo2bo$2obo5b2o$2obo5b2o$3b2o3bo2bo$4bo6bo$5bob2o!\n";

    let points = parse_fle_file(contents).unwrap();
    let mut tree = TreeData::gather_all_points(&points).unwrap();
    tree.increase_depth().unwrap();
    tree.increase_depth().unwrap();
    let out_points = tree.dump_all_points();
    let rle_tot_str = write_rle(&out_points);
    assert_eq!(expected, rle_tot_str);
}

#[test]
fn garbage_collection_keeps_the_cells() {
    let text = "x = 12, y = 8, rule = B3/S23\n5bob2o$4bo6bo$3b2o3bo2bo$2obo5b2o$2obo5b2o$3b2o3bo2bo$4bo6bo$5bob2o!\n";
    let points = parse_fle_file(text).unwrap();
    let mut tree = TreeData::gather_all_points(&points).unwrap();
    tree.step_forward(50).unwrap();
    let before = tree.dump_all_points();
    let count_before = tree.node_count();
    tree.garbage_collect();
    assert_eq!(tree.dump_all_points(), before);
    assert!(tree.node_count() <= count_before);
    assert!(tree.node_count() < count_before);
    let kept = tree.node_count();
    tree.garbage_collect();
    assert_eq!(tree.node_count(), kept);
    assert_eq!(tree.dump_all_points(), before);
    let mut other = TreeData::gather_all_points(&points).unwrap();
    other.step_forward(50).unwrap();
    other.step_forward(37).unwrap();
    tree.step_forward(37).unwrap();
    assert_eq!(tree.dump_all_points(), other.dump_all_points());
    assert_eq!(as_set(&before), naive(&as_set(&points), 50));
}

#[test]
fn garbage_collection_drops_what_is_not_in_use() {
    let mut tree = TreeData::gather_all_points(&as_points(&[(0, 0), (1, 0), (2, 0)])).unwrap();
    let fresh = tree.node_count();
    tree.step_forward(1).unwrap();
    tree.step_forward(1).unwrap();
    let blinker = as_set(&tree.dump_all_points());
    assert_eq!(blinker, as_set(&as_points(&[(0, 0), (1, 0), (2, 0)])));
    let used = tree.node_count();
    assert!(used > fresh);
    tree.garbage_collect();
    let kept = tree.node_count();
    assert!(kept < used);
    assert!(kept >= 2);
    assert_eq!(as_set(&tree.dump_all_points()), blinker);
    tree.garbage_collect();
    assert_eq!(tree.node_count(), kept);
}

#[test]
fn a_pattern_that_grows() {
    // the acorn lives for 5206 generations and ends with 633 cells
    let acorn = as_points(&[(1, 0), (3, 1), (0, 2), (1, 2), (4, 2), (5, 2), (6, 2)]);
    let mut tree = TreeData::gather_all_points(&acorn).unwrap();
    tree.step_forward(5206).unwrap();
    assert_eq!(tree.num_live_cells(), 633);
    assert_eq!(tree.dump_all_points().len(), 633);
    let mut early = TreeData::gather_all_points(&acorn).unwrap();
    early.step_forward(300).unwrap();
    assert_eq!(as_set(&early.dump_all_points()), naive(&as_set(&acorn), 300));
}
