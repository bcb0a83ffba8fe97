use hashlife_fast::bitgrid::calc_result_bitsize;

#[test]
fn test_cmprison() {
    let sumval: u64 = 0x3412750434127504;
    let curval: u64 = 0x0100000101000001;
    let expected: u64 = 0x1100000111000001;
    let actual = calc_result_bitsize(sumval, curval);
    assert_eq!(actual, expected);
}

#[test]
fn quadtree_test_cmprison() {
    let sumval: u64 = 0x3412750434127504;
    let curval: u64 = 0x0100000101000001;
    let expected: u64 = 0x1100000111000001;
    let actual = calc_result_bitsize(sumval, curval);
    assert_eq!(actual, expected);
}

#[test]
fn rule_on_every_count() {
    assert_eq!(calc_result_bitsize(0x0000000000000987, 0x0000000000000111), 0);
    assert_eq!(calc_result_bitsize(0x0000000000654321, 0x0000000000000000), 0x0000000000000100);
    assert_eq!(calc_result_bitsize(0x0000000000654321, 0x0000000000111111), 0x0000000000001100);
}
