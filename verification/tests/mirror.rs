use image_processor::mirror::{process_image, swap_horizontal, swap_pixels, swap_vertical};

#[test]
fn mirrors_image_horizontally() {
    let mut data = vec![
        1, 11, 21, 31, 2, 12, 22, 32, //
        3, 13, 23, 33, 4, 14, 24, 34,
    ];
    let params = r#"{"horizontal":true,"vertical":false}"#;

    process_image(2, 2, &mut data, params);

    assert_eq!(
        data,
        vec![
            2, 12, 22, 32, 1, 11, 21, 31, //
            4, 14, 24, 34, 3, 13, 23, 33,
        ]
    );
}

#[test]
fn mirrors_image_vertically() {
    let mut data = vec![
        1, 11, 21, 31, 2, 12, 22, 32, //
        3, 13, 23, 33, 4, 14, 24, 34,
    ];
    let params = r#"{"horizontal":false,"vertical":true}"#;

    process_image(2, 2, &mut data, params);

    assert_eq!(
        data,
        vec![
            3, 13, 23, 33, 4, 14, 24, 34, //
            1, 11, 21, 31, 2, 12, 22, 32,
        ]
    );
}

fn three_by_two() -> Vec<u8> {
    (0u8..24).collect()
}

#[test]
fn mirrors_both_ways_rotates_half_turn() {
    let mut data = three_by_two();
    process_image(3, 2, &mut data, r#"{"horizontal":true,"vertical":true}"#);
    let expected: Vec<u8> = vec![
        20, 21, 22, 23, 16, 17, 18, 19, 12, 13, 14, 15, //
        8, 9, 10, 11, 4, 5, 6, 7, 0, 1, 2, 3,
    ];
    assert_eq!(data, expected);
}

#[test]
fn leaves_image_without_requested_flip() {
    let mut data = three_by_two();
    process_image(3, 2, &mut data, r#"{"horizontal":false,"vertical":false}"#);
    assert_eq!(data, three_by_two());
    process_image(3, 2, &mut data, "{}");
    assert_eq!(data, three_by_two());
}

#[test]
fn non_boolean_members_count_as_false() {
    let mut data = three_by_two();
    process_image(3, 2, &mut data, r#"{"horizontal":1,"vertical":"yes"}"#);
    assert_eq!(data, three_by_two());
}

#[test]
fn malformed_params_leave_image() {
    let mut data = three_by_two();
    process_image(3, 2, &mut data, r#"{"horizontal":true"#);
    assert_eq!(data, three_by_two());
}

#[test]
fn horizontal_mirror_keeps_middle_column() {
    let mut data = three_by_two();
    swap_horizontal(&mut data, 3, 2, 12);
    let expected: Vec<u8> = vec![
        8, 9, 10, 11, 4, 5, 6, 7, 0, 1, 2, 3, //
        20, 21, 22, 23, 16, 17, 18, 19, 12, 13, 14, 15,
    ];
    assert_eq!(data, expected);
}

#[test]
fn horizontal_mirror_twice_restores_image() {
    let mut data = three_by_two();
    swap_horizontal(&mut data, 3, 2, 12);
    swap_horizontal(&mut data, 3, 2, 12);
    assert_eq!(data, three_by_two());
}

#[test]
fn vertical_mirror_keeps_middle_row() {
    let mut data: Vec<u8> = (0u8..12).collect();
    swap_vertical(&mut data, 3, 4);
    assert_eq!(data, vec![8, 9, 10, 11, 4, 5, 6, 7, 0, 1, 2, 3]);
    swap_vertical(&mut data, 3, 4);
    assert_eq!(data, (0u8..12).collect::<Vec<u8>>());
}

#[test]
fn mirrors_commute() {
    let mut a = three_by_two();
    swap_horizontal(&mut a, 3, 2, 12);
    swap_vertical(&mut a, 2, 12);
    let mut b = three_by_two();
    swap_vertical(&mut b, 2, 12);
    swap_horizontal(&mut b, 3, 2, 12);
    assert_eq!(a, b);
}

#[test]
fn mirror_leaves_bytes_past_the_image() {
    let mut data: Vec<u8> = (0u8..10).collect();
    swap_horizontal(&mut data, 2, 1, 8);
    assert_eq!(data, vec![4, 5, 6, 7, 0, 1, 2, 3, 8, 9]);
    let mut data: Vec<u8> = (0u8..10).collect();
    swap_vertical(&mut data, 2, 4);
    assert_eq!(data, vec![4, 5, 6, 7, 0, 1, 2, 3, 8, 9]);
}

#[test]
fn swaps_two_pixels() {
    let mut data: Vec<u8> = (0u8..12).collect();
    swap_pixels(&mut data, 0, 8);
    assert_eq!(data, vec![8, 9, 10, 11, 4, 5, 6, 7, 0, 1, 2, 3]);
}

#[test]
fn empty_image_is_left_alone() {
    let mut data: Vec<u8> = Vec::new();
    process_image(5, 0, &mut data, r#"{"horizontal":true,"vertical":true}"#);
    assert!(data.is_empty());
}

#[test]
fn horizontal_flip_keeps_row_padding() {
    // Two rows of two pixels, each row padded by four bytes, then two stray bytes.
    let mut data: Vec<u8> = (0u8..26).collect();
    swap_horizontal(&mut data, 2, 2, 12);
    let expected: Vec<u8> = vec![
        4, 5, 6, 7, 0, 1, 2, 3, 8, 9, 10, 11, //
        16, 17, 18, 19, 12, 13, 14, 15, 20, 21, 22, 23, //
        24, 25,
    ];
    assert_eq!(data, expected);
    swap_horizontal(&mut data, 2, 2, 12);
    assert_eq!(data, (0u8..26).collect::<Vec<u8>>());
}

#[test]
fn vertical_flip_moves_padding_with_rows() {
    let mut data: Vec<u8> = (0u8..14).collect();
    swap_vertical(&mut data, 2, 6);
    assert_eq!(data, vec![6, 7, 8, 9, 10, 11, 0, 1, 2, 3, 4, 5, 12, 13]);
}

#[test]
fn process_image_keeps_bytes_past_the_image() {
    let mut data: Vec<u8> = (0u8..10).collect();
    process_image(2, 1, &mut data, r#"{"horizontal":true}"#);
    assert_eq!(data, vec![4, 5, 6, 7, 0, 1, 2, 3, 8, 9]);
}
