//! The host program's decisions: whether a path names a usable file, how big
//! the RGBA buffer of an image is, and what a plugin library is called.

use vstd::prelude::*;

verus! {

/// Why the host stops.
#[derive(Debug, PartialEq, Eq)]
pub enum HostError {
    /// Nothing exists at `path`; `label` says what it was meant to be.
    Missing { label: String, path: String },
    /// Something exists at `path` but it is not a regular file.
    NotARegularFile { label: String, path: String },
    /// Width x height x 4 does not fit in a `usize`.
    DimensionsTooLarge,
    /// The decoded buffer does not hold width x height RGBA pixels.
    BufferLengthMismatch { expected: usize, actual: usize },
}

/// The text of one decimal digit.
pub open spec fn digit_text(d: int) -> Seq<char> {
    if d == 0 {
        "0"@
    } else if d == 1 {
        "1"@
    } else if d == 2 {
        "2"@
    } else if d == 3 {
        "3"@
    } else if d == 4 {
        "4"@
    } else if d == 5 {
        "5"@
    } else if d == 6 {
        "6"@
    } else if d == 7 {
        "7"@
    } else if d == 8 {
        "8"@
    } else {
        "9"@
    }
}

/// The decimal notation of `n`, without leading zeros.
pub open spec fn decimal(n: nat) -> Seq<char>
    decreases n,
{
    if n < 10 {
        digit_text(n as int)
    } else {
        decimal(n / 10) + digit_text((n % 10) as int)
    }
}

fn digit_str(d: usize) -> (s: &'static str)
    requires
        d < 10,
    ensures
        s@ == digit_text(d as int),
{
    if d == 0 {
        "0"
    } else if d == 1 {
        "1"
    } else if d == 2 {
        "2"
    } else if d == 3 {
        "3"
    } else if d == 4 {
        "4"
    } else if d == 5 {
        "5"
    } else if d == 6 {
        "6"
    } else if d == 7 {
        "7"
    } else if d == 8 {
        "8"
    } else {
        "9"
    }
}

/// Appends the decimal notation of `n` to `text`.
fn append_decimal(text: &mut String, n: usize)
    ensures
        final(text)@ == old(text)@ + decimal(n as nat),
    decreases n,
{
    if n >= 10 {
        append_decimal(text, n / 10);
    }
    text.append(digit_str(n % 10));
    proof {
        assert(old(text)@ + decimal(n as nat) =~= if n >= 10 {
            old(text)@ + decimal((n / 10) as nat) + digit_text((n % 10) as int)
        } else {
            old(text)@ + digit_text((n % 10) as int)
        });
    }
}

/// The text a host error is reported with.
pub open spec fn error_text(e: HostError) -> Seq<char> {
    match e {
        HostError::Missing { label, path } => label@ + " does not exist: "@ + path@,
        HostError::NotARegularFile { label, path } => label@ + " is not a regular file: "@ + path@,
        HostError::DimensionsTooLarge => "Image dimensions are too large"@,
        HostError::BufferLengthMismatch { expected, actual } => "Invalid RGBA image buffer length: expected "@
            + decimal(expected as nat) + ", got "@ + decimal(actual as nat),
    }
}

impl HostError {
    /// The text this error is reported with.
    pub fn message(&self) -> (text: String)
        ensures
            text@ == error_text(*self),
    {
        match self {
            HostError::Missing { label, path } => {
                let mut text = String::from_str(label.as_str());
                text.append(" does not exist: ");
                text.append(path.as_str());
                text
            },
            HostError::NotARegularFile { label, path } => {
                let mut text = String::from_str(label.as_str());
                text.append(" is not a regular file: ");
                text.append(path.as_str());
                text
            },
            HostError::DimensionsTooLarge => String::from_str("Image dimensions are too large"),
            HostError::BufferLengthMismatch { expected, actual } => {
                let mut text = String::from_str("Invalid RGBA image buffer length: expected ");
                append_decimal(&mut text, *expected);
                text.append(", got ");
                append_decimal(&mut text, *actual);
                text
            },
        }
    }
}

/// Decides whether the path `path`, described as `label`, can be used as a
/// file: `exists` and `is_file` are what the file system says of it.
pub fn ensure_existing_file(exists: bool, is_file: bool, label: &str, path: &str) -> (res: Result<
    (),
    HostError,
>)
    ensures
        !exists ==> (res matches Err(HostError::Missing { label: l, path: p }) && l@ == label@ && p@
            == path@),
        exists && !is_file ==> (res matches Err(HostError::NotARegularFile { label: l, path: p })
            && l@ == label@ && p@ == path@),
        exists && is_file ==> res is Ok,
{
    if !exists {
        return Err(
            HostError::Missing { label: String::from_str(label), path: String::from_str(path) },
        );
    }
    if !is_file {
        return Err(
            HostError::NotARegularFile {
                label: String::from_str(label),
                path: String::from_str(path),
            },
        );
    }
    Ok(())
}

/// The number of bytes of a `width` x `height` RGBA buffer.
pub fn rgba_buffer_len(width: u32, height: u32) -> (res: Result<usize, HostError>)
    ensures
        width * height * 4 <= usize::MAX ==> res == Ok::<usize, HostError>(
            (width * height * 4) as usize,
        ),
        width * height * 4 > usize::MAX ==> res == Err::<usize, HostError>(HostError::DimensionsTooLarge),
{
    let pixels = (width as usize).checked_mul(height as usize);
    match pixels {
        Some(pixels) => match pixels.checked_mul(4) {
            Some(len) => Ok(len),
            None => Err(HostError::DimensionsTooLarge),
        },
        None => {
            proof {
                assert(width * height <= width * height * 4) by (nonlinear_arith);
            }
            Err(HostError::DimensionsTooLarge)
        },
    }
}

/// Checks that a decoded image's buffer holds exactly `width` x `height` RGBA
/// pixels, and returns that length.
pub fn check_rgba_buffer(width: u32, height: u32, actual: usize) -> (res: Result<usize, HostError>)
    ensures
        width * height * 4 > usize::MAX ==> res == Err::<usize, HostError>(HostError::DimensionsTooLarge),
        width * height * 4 <= usize::MAX && actual != width * height * 4 ==> res == Err::<
            usize,
            HostError,
        >(HostError::BufferLengthMismatch { expected: (width * height * 4) as usize, actual }),
        width * height * 4 <= usize::MAX && actual == width * height * 4 ==> res == Ok::<
            usize,
            HostError,
        >(actual),
{
    let expected = match rgba_buffer_len(width, height) {
        Ok(n) => n,
        Err(e) => return Err(e),
    };
    if actual != expected {
        return Err(HostError::BufferLengthMismatch { expected, actual });
    }
    Ok(expected)
}

/// The file name of plugin `plugin` on a platform whose dynamic libraries are
/// named `prefix`, the name, then `suffix`.
pub fn plugin_file_name(prefix: &str, plugin: &str, suffix: &str) -> (name: String)
    ensures
        name@ == prefix@ + plugin@ + suffix@,
{
    let mut name = String::from_str(prefix);
    name.append(plugin);
    name.append(suffix);
    name
}

} // verus!
