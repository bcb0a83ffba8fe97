use hashlife_fast::point::Point;
use hashlife_fast::quadtree::TreeData;

fn tree_of(cells: &[(i64, i64)]) -> TreeData {
    let points: Vec<Point> = cells.iter().map(|&(x, y)| Point { x, y }).collect();
    TreeData::gather_all_points(&points).unwrap()
}

#[test]
fn gray_map_of_single_cells() {
    let tree = tree_of(&[(0, 0), (2, 1), (3, 3)]);
    // every pixel is one cell, and a live cell is 255 * 1 * 65536 >> 16
    let map = tree.make_grayscale_map(Point { x: 0, y: 0 }, 4, 4, 0, 65536);
    let mut expected = vec![0u8; 16];
    expected[0] = 255;
    expected[1 * 4 + 2] = 255;
    expected[3 * 4 + 3] = 255;
    assert_eq!(map, expected);
    // half as bright: 255 * 32768 >> 16 = 127
    let dim = tree.make_grayscale_map(Point { x: 0, y: 0 }, 4, 4, 0, 32768);
    assert_eq!(dim[0], 127);
    assert_eq!(dim[1], 0);
}

#[test]
fn gray_map_counts_the_cells_of_a_pixel() {
    let tree = tree_of(&[(0, 0), (1, 0), (1, 1), (4, 4), (15, 15)]);
    // pixels of 4x4 cells: 255 * 65536 * count >> (16 + 4)
    let map = tree.make_grayscale_map(Point { x: 0, y: 0 }, 4, 4, 2, 65536);
    let mut expected = vec![0u8; 16];
    expected[0] = (255 * 3 / 16) as u8;
    expected[1 * 4 + 1] = (255 / 16) as u8;
    expected[3 * 4 + 3] = (255 / 16) as u8;
    assert_eq!(map, expected);
    // sixteen times as bright
    let bright = tree.make_grayscale_map(Point { x: 0, y: 0 }, 4, 4, 2, 16 * 65536);
    assert_eq!(bright[0], 255);
    assert_eq!(bright[5], 255);
    // so bright that the product does not fit in 64 bits
    let glare = tree.make_grayscale_map(Point { x: 0, y: 0 }, 4, 4, 2, u64::MAX);
    assert_eq!(glare[0], 255);
    assert_eq!(glare[1], 0);
}

#[test]
fn gray_map_clips_what_lies_beside_the_picture() {
    let tree = tree_of(&[(0, 0), (9, 9), (100, 3), (-7, 2)]);
    let map = tree.make_grayscale_map(Point { x: 8, y: 8 }, 2, 2, 0, 65536);
    assert_eq!(map, vec![0, 0, 0, 255]);
    let nothing = tree.make_grayscale_map(Point { x: 0, y: 0 }, 0, 5, 0, 65536);
    assert_eq!(nothing, vec![]);
    let far = tree.make_grayscale_map(Point { x: 1000, y: 1000 }, 3, 2, 3, 65536);
    assert_eq!(far, vec![0; 6]);
}

#[test]
fn gray_map_of_a_large_square() {
    let mut cells = Vec::new();
    for y in 0..64 {
        for x in 0..64 {
            cells.push((x, y));
        }
    }
    let tree = tree_of(&cells);
    // one pixel for the whole square of 64x64: zoom 6
    let map = tree.make_grayscale_map(Point { x: 0, y: 0 }, 1, 1, 6, 65536);
    assert_eq!(map, vec![255]);
    let quarter = tree.make_grayscale_map(Point { x: 0, y: 0 }, 1, 1, 7, 65536);
    assert_eq!(quarter, vec![63]);
    // a zoom beyond the tree draws the root
    let tiny = tree.make_grayscale_map(Point { x: 0, y: 0 }, 1, 1, 20, 65536);
    assert_eq!(tiny, vec![0]);
}

#[test]
fn gray_map_is_the_density_of_each_pixel() {
    // the corner of the tree is the least column and row: (-8, 16)
    let cells = [(-8, 16), (-7, 16), (-1, 23), (0, 16), (5, 20), (9, 30), (23, 39), (16, 32)];
    let tree = tree_of(&cells);
    // pixels of 8x8 cells, the picture begins one pixel left of and above the tree
    let (width, height) = (6usize, 5usize);
    let map = tree.make_grayscale_map(Point { x: -16, y: 8 }, width, height, 3, 4 * 65536);
    let mut expected = vec![0u8; width * height];
    for py in 0..height {
        for px in 0..width {
            let (x0, y0) = (-16 + 8 * px as i64, 8 + 8 * py as i64);
            let count = cells
                .iter()
                .filter(|&&(x, y)| x0 <= x && x < x0 + 8 && y0 <= y && y < y0 + 8)
                .count() as u64;
            expected[py * width + px] = std::cmp::min(255, 255 * 4 * count / 64) as u8;
        }
    }
    assert_eq!(map, expected);
    assert_eq!(map[1 * width + 1], 47);
    assert_eq!(map[0], 0);
}
