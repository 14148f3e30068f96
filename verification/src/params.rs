//! The plugins' parameters: a JSON object read with serde_json.

use vstd::prelude::*;

verus! {

#[verifier::external_type_specification]
#[verifier::external_body]
pub struct ExJsonError(serde_json::Error);

/// Whether `serde_json::from_str::<serde_json::Value>` accepts `text`.
pub uninterp spec fn json_accepts(text: Seq<char>) -> bool;

/// `value[key].as_u64()` for the `serde_json::Value` that `text` parses to.
pub uninterp spec fn json_member_u64(text: Seq<char>, key: Seq<char>) -> Option<u64>;

/// `value[key].as_bool()` for the `serde_json::Value` that `text` parses to.
pub uninterp spec fn json_member_bool(text: Seq<char>, key: Seq<char>) -> Option<bool>;

/// Parses `text` with `serde_json::from_str` into a `serde_json::Value` and reads
/// two members with `Value`'s `Index<&str>` and `Value::as_u64`. Claimed: the
/// parse succeeds exactly when `json_accepts` holds of the text, and each member
/// read is the named result for the text and that key. What `json_accepts` and
/// the members are on given text is left unsaid: that is serde_json's grammar.
#[verifier::external_body]
fn read_u64_members(text: &str, first: &str, second: &str) -> (res: Result<
    (Option<u64>, Option<u64>),
    serde_json::Error,
>)
    ensures
        res is Ok <==> json_accepts(text@),
        res matches Ok(m) ==> m.0 == json_member_u64(text@, first@) && m.1 == json_member_u64(
            text@,
            second@,
        ),
{
    match serde_json::from_str::<serde_json::Value>(text) {
        Ok(value) => Ok((value[first].as_u64(), value[second].as_u64())),
        Err(err) => Err(err),
    }
}

/// As `read_u64_members`, with `Value::as_bool` in place of `Value::as_u64`.
/// Claimed: success exactly when `json_accepts` holds, and each member is the
/// named result for the text and that key.
#[verifier::external_body]
fn read_bool_members(text: &str, first: &str, second: &str) -> (res: Result<
    (Option<bool>, Option<bool>),
    serde_json::Error,
>)
    ensures
        res is Ok <==> json_accepts(text@),
        res matches Ok(m) ==> m.0 == json_member_bool(text@, first@) && m.1 == json_member_bool(
            text@,
            second@,
        ),
{
    match serde_json::from_str::<serde_json::Value>(text) {
        Ok(value) => Ok((value[first].as_bool(), value[second].as_bool())),
        Err(err) => Err(err),
    }
}

/// Why parameters were not read.
#[derive(Debug, Clone, Copy, PartialEq, Eq, Structural)]
pub enum ParamsError {
    /// The text is not a JSON document.
    MalformedJson,
}

/// The mirror plugin's parameters.
#[derive(Debug, Clone, Copy, PartialEq, Eq, Structural)]
pub struct MirrorParams {
    pub horizontal: bool,
    pub vertical: bool,
}

/// The blur plugin's parameters.
#[derive(Debug, Clone, Copy, PartialEq, Eq, Structural)]
pub struct BlurParams {
    pub radius: u64,
    pub iterations: u64,
}

pub open spec fn bool_or_false(member: Option<bool>) -> bool {
    match member {
        Some(b) => b,
        None => false,
    }
}

pub open spec fn u64_or_zero(member: Option<u64>) -> u64 {
    match member {
        Some(n) => n,
        None => 0,
    }
}

/// The mirror parameters that `text` asks for: a member that is missing or not
/// a boolean counts as `false`; text that is not JSON asks for nothing.
pub open spec fn mirror_request(text: Seq<char>) -> Option<MirrorParams> {
    if json_accepts(text) {
        Some(
            MirrorParams {
                horizontal: bool_or_false(json_member_bool(text, "horizontal"@)),
                vertical: bool_or_false(json_member_bool(text, "vertical"@)),
            },
        )
    } else {
        None
    }
}

/// The blur parameters that `text` asks for: a member that is missing or not
/// an unsigned integer counts as 0; text that is not JSON asks for nothing.
pub open spec fn blur_request(text: Seq<char>) -> Option<BlurParams> {
    if json_accepts(text) {
        Some(
            BlurParams {
                radius: u64_or_zero(json_member_u64(text, "radius"@)),
                iterations: u64_or_zero(json_member_u64(text, "iterations"@)),
            },
        )
    } else {
        None
    }
}

/// Reads the `horizontal` and `vertical` members of the mirror parameters.
pub fn parse_mirror_params(text: &str) -> (res: Result<MirrorParams, ParamsError>)
    ensures
        res is Ok <==> json_accepts(text@),
        res matches Ok(p) ==> p.horizontal == (json_member_bool(text@, "horizontal"@) == Some(true))
            && p.vertical == (json_member_bool(text@, "vertical"@) == Some(true)),
        match mirror_request(text@) {
            Some(p) => res == Ok::<MirrorParams, ParamsError>(p),
            None => res == Err::<MirrorParams, ParamsError>(ParamsError::MalformedJson),
        },
{
    match read_bool_members(text, "horizontal", "vertical") {
        Ok((horizontal, vertical)) => {
            let horizontal = match horizontal {
                Some(b) => b,
                None => false,
            };
            let vertical = match vertical {
                Some(b) => b,
                None => false,
            };
            Ok(MirrorParams { horizontal, vertical })
        },
        Err(_) => Err(ParamsError::MalformedJson),
    }
}

/// Reads the `radius` and `iterations` members of the blur parameters.
pub fn parse_blur_params(text: &str) -> (res: Result<BlurParams, ParamsError>)
    ensures
        res is Ok <==> json_accepts(text@),
        res matches Ok(p) ==> (json_member_u64(text@, "radius"@) matches Some(n) ==> p.radius == n)
            && (json_member_u64(text@, "radius"@) is None ==> p.radius == 0)
            && (json_member_u64(text@, "iterations"@) matches Some(n) ==> p.iterations == n)
            && (json_member_u64(text@, "iterations"@) is None ==> p.iterations == 0),
        match blur_request(text@) {
            Some(p) => res == Ok::<BlurParams, ParamsError>(p),
            None => res == Err::<BlurParams, ParamsError>(ParamsError::MalformedJson),
        },
{
    match read_u64_members(text, "radius", "iterations") {
        Ok((radius, iterations)) => {
            let radius = match radius {
                Some(n) => n,
                None => 0,
            };
            let iterations = match iterations {
                Some(n) => n,
                None => 0,
            };
            Ok(BlurParams { radius, iterations })
        },
        Err(_) => Err(ParamsError::MalformedJson),
    }
}

/// Each mirror flag is read from its own member alone: it is set exactly
/// when that member is the boolean `true`, whatever the other member holds;
/// text that is not JSON asks for no flip.
pub proof fn lemma_mirror_flags_from_own_members(text: Seq<char>)
    ensures
        mirror_request(text) is Some <==> json_accepts(text),
        json_accepts(text) ==> mirror_request(text)->0.horizontal == (json_member_bool(
            text,
            "horizontal"@,
        ) == Some(true)),
        json_accepts(text) ==> mirror_request(text)->0.vertical == (json_member_bool(text, "vertical"@)
            == Some(true)),
{
}

/// Each blur number is read from its own member alone: it is that member
/// when the member is an unsigned integer, and 0 otherwise; text that is not
/// JSON asks for nothing.
pub proof fn lemma_blur_numbers_from_own_members(text: Seq<char>)
    ensures
        blur_request(text) is Some <==> json_accepts(text),
        json_accepts(text) && json_member_u64(text, "radius"@) is Some ==> blur_request(text)->0.radius
            == json_member_u64(text, "radius"@)->0,
        json_accepts(text) && json_member_u64(text, "radius"@) is None ==> blur_request(text)->0.radius
            == 0,
        json_accepts(text) && json_member_u64(text, "iterations"@) is Some ==> blur_request(
            text,
        )->0.iterations == json_member_u64(text, "iterations"@)->0,
        json_accepts(text) && json_member_u64(text, "iterations"@) is None ==> blur_request(
            text,
        )->0.iterations == 0,
{
}

} // verus!
