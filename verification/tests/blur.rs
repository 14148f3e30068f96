use image_processor::blur::{blur_image, pixel_offset, process_image, Sample};

/// The distance-weighted mean that the plugin computes in floating point.
fn weighted_mean(samples: &Vec<Sample>) -> u8 {
    let mut sum = 0.0f64;
    let mut weight_sum = 0.0f64;
    for sample in samples {
        let distance = (sample.dist_sq as f64).sqrt();
        sum += sample.value as f64 * distance;
        weight_sum += distance;
    }
    (sum / weight_sum).round() as u8
}

fn five_by_one() -> Vec<u8> {
    vec![
        0, 10, 20, 30, //
        40, 50, 60, 70, //
        120, 130, 140, 150, //
        200, 210, 220, 230, //
        240, 250, 100, 110,
    ]
}

#[test]
fn blurs_image_with_one_iteration() {
    let mut data = five_by_one();
    let params = r#"{"radius":1,"iterations":1}"#;

    process_image(5, 1, &mut data, params, &weighted_mean);

    assert_eq!(
        data,
        vec![
            40, 50, 60, 70, //
            60, 70, 80, 90, //
            120, 130, 140, 150, //
            180, 190, 120, 130, //
            200, 210, 220, 230,
        ]
    );
}

#[test]
fn blurs_image_with_radius_two_and_one_iteration() {
    let mut data = five_by_one();
    let params = r#"{"radius":2,"iterations":1}"#;

    process_image(5, 1, &mut data, params, &weighted_mean);

    assert_eq!(
        data,
        vec![
            93, 103, 113, 123, //
            130, 140, 150, 160, //
            120, 130, 87, 97, //
            110, 120, 90, 100, //
            147, 157, 167, 177,
        ]
    );
}

#[test]
fn blurs_image_with_two_iterations() {
    let mut data = five_by_one();
    let params = r#"{"radius":1,"iterations":2}"#;

    process_image(5, 1, &mut data, params, &weighted_mean);

    assert_eq!(
        data,
        vec![
            60, 70, 80, 90, //
            80, 90, 100, 110, //
            120, 130, 100, 110, //
            160, 170, 180, 190, //
            180, 190, 120, 130,
        ]
    );
}

#[test]
fn zero_radius_or_iterations_leave_image() {
    let mut data = five_by_one();
    process_image(5, 1, &mut data, r#"{"radius":0,"iterations":3}"#, &weighted_mean);
    assert_eq!(data, five_by_one());
    process_image(5, 1, &mut data, r#"{"radius":2,"iterations":0}"#, &weighted_mean);
    assert_eq!(data, five_by_one());
    process_image(5, 1, &mut data, "{}", &weighted_mean);
    assert_eq!(data, five_by_one());
}

#[test]
fn malformed_or_negative_params_leave_image() {
    let mut data = five_by_one();
    process_image(5, 1, &mut data, "radius=2", &weighted_mean);
    assert_eq!(data, five_by_one());
    process_image(5, 1, &mut data, r#"{"radius":-1,"iterations":1}"#, &weighted_mean);
    assert_eq!(data, five_by_one());
}

#[test]
fn zero_radius_pass_keeps_image() {
    let mut data = five_by_one();
    blur_image(&mut data, 5, 1, 0, 4, &weighted_mean);
    assert_eq!(data, five_by_one());
}

#[test]
fn single_pixel_image_is_kept() {
    let mut data = vec![9, 8, 7, 6];
    blur_image(&mut data, 1, 1, 5, 3, &|_: &Vec<Sample>| 0u8);
    assert_eq!(data, vec![9, 8, 7, 6]);
}

#[test]
fn samples_are_the_disk_in_row_major_order() {
    // A 3x3 image whose every byte is its pixel number; the averaging records
    // what it was handed for the centre pixel's first channel.
    let mut data: Vec<u8> = Vec::new();
    for p in 0u8..9 {
        data.extend_from_slice(&[p, p, p, p]);
    }
    let seen = std::cell::RefCell::new(Vec::new());
    let record = |samples: &Vec<Sample>| {
        if samples.len() == 5 {
            seen.borrow_mut().push(samples.clone());
        }
        0u8
    };
    blur_image(&mut data, 3, 3, 1, 1, &record);
    let centre = seen.borrow()[0].clone();
    let got: Vec<(u8, u128)> = centre.iter().map(|s| (s.value, s.dist_sq)).collect();
    assert_eq!(got, vec![(1, 1), (3, 1), (4, 0), (5, 1), (7, 1)]);
}

#[test]
fn corner_pixels_see_only_in_bounds_neighbours() {
    let mut data: Vec<u8> = vec![0; 16];
    let counts = std::cell::RefCell::new(Vec::new());
    let count = |samples: &Vec<Sample>| {
        counts.borrow_mut().push(samples.len());
        1u8
    };
    blur_image(&mut data, 2, 2, 1, 1, &count);
    assert_eq!(*counts.borrow(), vec![3; 16]);
    assert_eq!(data, vec![1; 16]);
}

#[test]
fn pixel_offsets() {
    assert_eq!(pixel_offset(0, 0, 5), 0);
    assert_eq!(pixel_offset(3, 0, 5), 12);
    assert_eq!(pixel_offset(2, 4, 5), 88);
}

#[test]
fn radius_negative_as_signed_integer_samples_nothing() {
    let mut data = five_by_one();
    process_image(
        5,
        1,
        &mut data,
        r#"{"radius":18446744073709551615,"iterations":1}"#,
        &weighted_mean,
    );
    assert_eq!(data, five_by_one());
}

#[test]
fn passes_compose() {
    let mut once_then_once = five_by_one();
    blur_image(&mut once_then_once, 5, 1, 1, 1, &weighted_mean);
    blur_image(&mut once_then_once, 5, 1, 1, 1, &weighted_mean);
    let mut twice = five_by_one();
    blur_image(&mut twice, 5, 1, 1, 2, &weighted_mean);
    assert_eq!(once_then_once, twice);
}

#[test]
fn blur_keeps_bytes_past_the_image() {
    let mut data = five_by_one();
    data.extend_from_slice(&[99, 98, 97]);
    blur_image(&mut data, 5, 1, 1, 1, &weighted_mean);
    let mut expected = vec![
        40, 50, 60, 70, //
        60, 70, 80, 90, //
        120, 130, 140, 150, //
        180, 190, 120, 130, //
        200, 210, 220, 230,
    ];
    expected.extend_from_slice(&[99, 98, 97]);
    assert_eq!(data, expected);

    let mut data = five_by_one();
    data.push(7);
    process_image(5, 1, &mut data, r#"{"radius":2,"iterations":1}"#, &weighted_mean);
    assert_eq!(&data[20..], &[7]);
    assert_eq!(&data[..4], &[93, 103, 113, 123]);
}
