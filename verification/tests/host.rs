use image_processor::host::{
    check_rgba_buffer, ensure_existing_file, plugin_file_name, rgba_buffer_len, HostError,
};

#[test]
fn accepts_existing_regular_file() {
    assert_eq!(ensure_existing_file(true, true, "Input file", "in.png"), Ok(()));
}

#[test]
fn reports_missing_file() {
    let err = ensure_existing_file(false, false, "Input file", "in.png").unwrap_err();
    assert_eq!(
        err,
        HostError::Missing { label: "Input file".to_string(), path: "in.png".to_string() }
    );
    assert_eq!(err.message(), "Input file does not exist: in.png");
}

#[test]
fn reports_directory_as_not_a_file() {
    let err = ensure_existing_file(true, false, "Params file", "/tmp").unwrap_err();
    assert_eq!(
        err,
        HostError::NotARegularFile { label: "Params file".to_string(), path: "/tmp".to_string() }
    );
    assert_eq!(err.message(), "Params file is not a regular file: /tmp");
}

#[test]
fn buffer_length_of_small_images() {
    assert_eq!(rgba_buffer_len(2, 3), Ok(24));
    assert_eq!(rgba_buffer_len(0, 7), Ok(0));
    assert_eq!(rgba_buffer_len(u32::MAX, 1), Ok(u32::MAX as usize * 4));
}

#[test]
fn buffer_length_overflow() {
    let err = rgba_buffer_len(u32::MAX, u32::MAX).unwrap_err();
    assert_eq!(err, HostError::DimensionsTooLarge);
    assert_eq!(err.message(), "Image dimensions are too large");
}

#[test]
fn checks_decoded_buffer() {
    assert_eq!(check_rgba_buffer(2, 2, 16), Ok(16));
    let err = check_rgba_buffer(2, 2, 15).unwrap_err();
    assert_eq!(err, HostError::BufferLengthMismatch { expected: 16, actual: 15 });
    assert_eq!(err.message(), "Invalid RGBA image buffer length: expected 16, got 15");
    assert_eq!(check_rgba_buffer(u32::MAX, u32::MAX, 0), Err(HostError::DimensionsTooLarge));
}

#[test]
fn mismatch_message_writes_numbers_in_decimal() {
    let err = HostError::BufferLengthMismatch { expected: 1_048_576, actual: 0 };
    assert_eq!(err.message(), "Invalid RGBA image buffer length: expected 1048576, got 0");
}

#[test]
fn plugin_names_follow_platform_convention() {
    assert_eq!(plugin_file_name("lib", "plugin_mirror", ".so"), "libplugin_mirror.so");
    assert_eq!(plugin_file_name("", "plugin_blur", ".dll"), "plugin_blur.dll");
}
