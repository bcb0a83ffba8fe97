use hashlife_fast::point::Point;
use hashlife_fast::rle::{
    cdiv, compress_os, generate_rle_contents, iter_coords, parse_fle_file, pattern_error,
    row_error, split_string_to_lines, to_chars, to_text, write_rle, RleError,
};

#[test]
fn rle_test_load_dump_points() {
    let contents = "x = 12, y = 8, rule = B3/S23\n5bob2o$4bo6bo$3b2o3bo2bo$2obo5b2o$2obo5b2o$3b2o3bo2bo$4bo6bo$5bob2o!\n";
    let expected = "x = 0, y = 0, rule = B3/S23\n5bob2o$4bo6bo$3b2o3bo2bo$2obo5b2o$2obo5b2o$3b2o3bo2bo$4bo6bo$5bob2o!\n";

    let points = parse_fle_file(contents).unwrap();
    let rle_tot_str = write_rle(&points);
    assert_eq!(expected, rle_tot_str);
}

#[test]
fn test_load_dump_points_large() {
    let contents = "x = 12, y = 8, rule = B3/S23\n12bo8bo$bo2bo2b2o2bo25bo2b2o2bo2bo$6bo5bo7b3o3b3o7bo5bo$6bo5bo8bo5bo8bo5bo$6bo5bo8b7o8bo5bo$bo2bo2b2o2bo2b2o4bo7bo4b2o2bo2b2o2bo2bo$o8bo3b2o4b11o4b2o3bo8bo$o3bo9b2o17b2o9bo3bo$4o11b19o11b4o$16bobo11bobo$19b11o$19bo9bo$20b9o$24bo$20b3o3b3o$22bo3bo$$21b3ob3o$21b3ob3o$20bob2ob2obo$20b3o3b3o$21bo5bo!\n";
    // the text in lines of 80 characters
    let expected = [
        "x = 0, y = 0, rule = B3/S23\n",
        "12bo8bo$bo2bo2b2o2bo25bo2b2o2bo2bo$6bo5bo7b3o3b3o7bo5bo$6bo5bo8bo5bo8bo5bo$6bo5b\n",
        "o8b7o8bo5bo$bo2bo2b2o2bo2b2o4bo7bo4b2o2bo2b2o2bo2bo$o8bo3b2o4b11o4b2o3bo8bo$o3bo\n",
        "9b2o17b2o9bo3bo$4o11b19o11b4o$16bobo11bobo$19b11o$19bo9bo$20b9o$24bo$20b3o3b3o$2\n",
        "2bo3bo$$21b3ob3o$21b3ob3o$20bob2ob2obo$20b3o3b3o$21bo5bo!\n",
    ]
    .concat();

    let points = parse_fle_file(contents).unwrap();
    let rle_tot_str = write_rle(&points);
    assert_eq!(expected, rle_tot_str);
    assert!(rle_tot_str.lines().all(|line| line.len() <= 80));
    assert_eq!(parse_fle_file(&rle_tot_str).unwrap(), points);
}

#[test]
fn row_of_runs() {
    assert_eq!(iter_coords("3bo2b2o"), Ok(vec![3, 6, 7]));
    assert_eq!(iter_coords(""), Ok(vec![]));
    assert_eq!(iter_coords("bo"), Ok(vec![1]));
    assert_eq!(iter_coords("12o"), Ok((0..12).collect::<Vec<i64>>()));
    assert_eq!(iter_coords("o!ooo"), Ok(vec![0]));
    assert_eq!(iter_coords("0o3bo"), Ok(vec![3]));
}

#[test]
fn row_with_a_bad_token() {
    assert_eq!(row_error("3bx"), Some(RleError::BadToken));
    assert_eq!(row_error("ox"), Some(RleError::BadToken));
    assert_eq!(row_error("2o 3b"), Some(RleError::BadToken));
    assert_eq!(row_error("3bo2b2o"), None);
    assert_eq!(row_error("o!x"), None);
    assert_eq!(pattern_error("x = 1\n3b?o!\n"), Some(RleError::BadToken));
    assert_eq!(pattern_error("x = 1\n3bo!\n"), None);
    assert_eq!(pattern_error("3b?o!\n"), None);
}

#[test]
fn row_with_a_count_beyond_64_bits() {
    assert_eq!(row_error("99999999999999999999b"), Some(RleError::TooLarge));
    assert_eq!(row_error("9223372036854775807bbo"), Some(RleError::TooLarge));
    assert_eq!(row_error("9223372036854775807b"), None);
    assert_eq!(iter_coords("9223372036854775807b"), Ok(vec![]));
    assert_eq!(pattern_error("x = 1\n9223372036854775808o!\n"), Some(RleError::TooLarge));
}

#[test]
fn parse_passes_over_comments_and_the_size_line() {
    let text = "#C a comment\n#C another\nx = 3, y = 3, rule = B3/S23\nbo$2bo$3o!\n";
    let points = parse_fle_file(text).unwrap();
    let expected = vec![
        Point { x: 1, y: 0 },
        Point { x: 2, y: 1 },
        Point { x: 0, y: 2 },
        Point { x: 1, y: 2 },
        Point { x: 2, y: 2 },
    ];
    assert_eq!(points, expected);
    // without a size line the first row is taken for it
    assert_eq!(parse_fle_file("bo$2bo$3o!\n"), Ok(vec![]));
    assert_eq!(parse_fle_file(""), Ok(vec![]));
    assert_eq!(parse_fle_file("#C only a comment"), Ok(vec![]));
}

#[test]
fn parse_counts_rows_over_lines() {
    let text = "x = 0\r\no$$o$\r\nbo$\n$2bo";
    let points = parse_fle_file(text).unwrap();
    let expected = vec![
        Point { x: 0, y: 0 },
        Point { x: 0, y: 2 },
        Point { x: 1, y: 3 },
        Point { x: 2, y: 5 },
    ];
    assert_eq!(points, expected);
}

#[test]
fn parse_reads_the_lines_as_one() {
    // a row, and a count, may go on in the next line
    let text = "x = 0\n3bo2\nbo$1\r\n2o!\n";
    let points = parse_fle_file(text).unwrap();
    let mut expected = vec![Point { x: 3, y: 0 }, Point { x: 6, y: 0 }];
    for x in 0..12 {
        expected.push(Point { x, y: 1 });
    }
    assert_eq!(points, expected);
    // nothing is read after the end of the pattern in its row
    assert_eq!(parse_fle_file("x = 0\no!\no$o\n"), Ok(vec![Point { x: 0, y: 0 }, Point { x: 0, y: 1 }]));
}

#[test]
fn contents_of_no_points() {
    assert_eq!(generate_rle_contents(&vec![]), "!\n");
    assert_eq!(write_rle(&vec![]), "x = 0, y = 0, rule = B3/S23\n!\n");
}

#[test]
fn contents_row_by_row() {
    let points = vec![
        Point { x: 5, y: 1 },
        Point { x: 3, y: 0 },
        Point { x: 4, y: 0 },
        Point { x: 17, y: 3 },
        Point { x: 2, y: 1 },
    ];
    // the order of the points does not matter
    assert_eq!(generate_rle_contents(&points), "boo$o2bo$$15bo!\n");
    assert_eq!(
        generate_rle_contents(&vec![Point { x: 0, y: 1 }, Point { x: 0, y: 0 }]),
        "o$o!\n"
    );
    assert_eq!(
        generate_rle_contents(&vec![Point { x: 0, y: 0 }, Point { x: 0, y: 1 }]),
        "o$o!\n"
    );
    let sorted = vec![
        Point { x: 3, y: 0 },
        Point { x: 4, y: 0 },
        Point { x: 2, y: 1 },
        Point { x: 5, y: 1 },
        Point { x: 17, y: 3 },
    ];
    assert_eq!(generate_rle_contents(&sorted), "boo$o2bo$$15bo!\n");
    assert_eq!(write_rle(&sorted), "x = 0, y = 0, rule = B3/S23\nb2o$o2bo$$15bo!\n");
}

#[test]
fn contents_with_negative_and_far_columns() {
    let points = vec![Point { x: -3, y: -2 }, Point { x: i64::MAX, y: -2 }, Point { x: -3, y: -1 }];
    assert_eq!(generate_rle_contents(&points), "o9223372036854775809bo$o!\n");
}

#[test]
fn compress_runs() {
    assert_eq!(compress_os("ooobobbooooooooooooo$o!"), "3obobb13o$o!");
    assert_eq!(compress_os(""), "");
    assert_eq!(compress_os("b"), "b");
    // a run at the very end is left out
    assert_eq!(compress_os("booo"), "b");
}

#[test]
fn split_breaks_long_lines() {
    assert_eq!(split_string_to_lines("abcdefghij", 3), "abc\ndef\nghi\nj");
    assert_eq!(split_string_to_lines("abcdef", 3), "abc\ndef");
    assert_eq!(split_string_to_lines("ab\ncdefg\n", 3), "ab\ncde\nfg\n");
    assert_eq!(split_string_to_lines("abc\ndef", 3), "abc\ndef");
    assert_eq!(split_string_to_lines("abcd", 1), "a\nb\nc\nd");
    assert_eq!(split_string_to_lines("", 80), "");
    assert_eq!(split_string_to_lines("abc", 80), "abc");
    assert_eq!(split_string_to_lines("abc", i64::MAX), "abc");
}

#[test]
fn cdiv_rounds_up() {
    assert_eq!(cdiv(0, 80), 0);
    assert_eq!(cdiv(1, 80), 1);
    assert_eq!(cdiv(80, 80), 1);
    assert_eq!(cdiv(81, 80), 2);
    assert_eq!(cdiv(i64::MAX, 1), i64::MAX);
}

#[test]
fn text_to_characters_and_back() {
    let chars = to_chars("3o$\u{e9}!");
    assert_eq!(chars, vec!['3', 'o', '$', '\u{e9}', '!']);
    assert_eq!(to_text(&chars), "3o$\u{e9}!");
}
