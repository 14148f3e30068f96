use image_processor::params::{
    parse_blur_params, parse_mirror_params, BlurParams, MirrorParams, ParamsError,
};

#[test]
fn reads_blur_params() {
    assert_eq!(
        parse_blur_params(r#"{"radius":3,"iterations":1}"#),
        Ok(BlurParams { radius: 3, iterations: 1 })
    );
}

#[test]
fn missing_or_mistyped_blur_members_are_zero() {
    assert_eq!(parse_blur_params("{}"), Ok(BlurParams { radius: 0, iterations: 0 }));
    assert_eq!(
        parse_blur_params(r#"{"radius":2.5,"iterations":"4"}"#),
        Ok(BlurParams { radius: 0, iterations: 0 })
    );
    assert_eq!(parse_blur_params("[1, 2]"), Ok(BlurParams { radius: 0, iterations: 0 }));
}

#[test]
fn reads_mirror_params() {
    assert_eq!(
        parse_mirror_params(r#"{"horizontal":true,"vertical":false}"#),
        Ok(MirrorParams { horizontal: true, vertical: false })
    );
    assert_eq!(
        parse_mirror_params(r#"{"vertical":true}"#),
        Ok(MirrorParams { horizontal: false, vertical: true })
    );
}

#[test]
fn rejects_text_that_is_not_json() {
    assert_eq!(parse_mirror_params("horizontal"), Err(ParamsError::MalformedJson));
    assert_eq!(parse_blur_params(""), Err(ParamsError::MalformedJson));
}
