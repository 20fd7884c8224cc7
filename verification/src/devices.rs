//! Which sound device a call uses.

use vstd::prelude::*;

verus! {

/// `needle` occurs in `haystack`.
pub open spec fn contains_text(haystack: Seq<char>, needle: Seq<char>) -> bool {
    exists|at: int|
        0 <= at <= haystack.len() - needle.len() && #[trigger] haystack.subrange(
            at,
            at + needle.len(),
        ) == needle
}

/// Calls `str::contains` with a string as the pattern. Claimed of it: it tells
/// whether the pattern is a piece of the string.
#[verifier::external_body]
fn text_contains(haystack: &str, needle: &str) -> (r: bool)
    ensures
        r == contains_text(haystack@, needle@),
{
    haystack.contains(needle)
}

/// A text holds another exactly if it is that text with something before it and
/// something behind it, each of which may be empty.
pub proof fn law_contained_text_is_a_piece(haystack: Seq<char>, needle: Seq<char>)
    ensures
        contains_text(haystack, needle) <==> exists|before: Seq<char>, behind: Seq<char>|
            haystack == #[trigger] (before + needle + behind),
{
    if contains_text(haystack, needle) {
        let at = choose|at: int|
            0 <= at <= haystack.len() - needle.len() && #[trigger] haystack.subrange(
                at,
                at + needle.len(),
            ) == needle;
        let before = haystack.subrange(0, at);
        let behind = haystack.subrange(at + needle.len(), haystack.len() as int);
        assert(haystack =~= before + needle + behind);
    }
    if exists|before: Seq<char>, behind: Seq<char>|
        haystack == #[trigger] (before + needle + behind) {
        let (before, behind) = choose|before: Seq<char>, behind: Seq<char>|
            haystack == #[trigger] (before + needle + behind);
        let at: int = before.len() as int;
        assert(haystack.subrange(at, at + needle.len()) =~= needle);
    }
}

/// The device to open.
#[derive(Debug, Clone, Copy, PartialEq, Eq, Structural)]
pub enum DeviceChoice {
    /// The listed device with this index.
    Listed(usize),
    /// The system's default device.
    Default,
}

/// Why there is no device to open.
#[derive(Debug, Clone, Copy, PartialEq, Eq, Structural)]
pub enum DeviceError {
    /// No listed name holds the wanted text.
    NoMatch,
    /// No device was asked for, and the system has no default one.
    NoDefault,
}

/// The device has a name, and the name holds `wanted`.
pub open spec fn name_matches(name: Option<String>, wanted: Seq<char>) -> bool {
    name matches Some(n) && contains_text(n@, wanted)
}

/// Picks the first device whose name holds `wanted`, or the default device if
/// nothing is wanted. A device whose name could not be read matches nothing.
pub fn pick_device(names: &Vec<Option<String>>, has_default: bool, wanted: Option<&str>) -> (r:
    Result<DeviceChoice, DeviceError>)
    ensures
        match wanted {
            None => r == (if has_default {
                Ok::<DeviceChoice, DeviceError>(DeviceChoice::Default)
            } else {
                Err(DeviceError::NoDefault)
            }),
            Some(text) => match r {
                Ok(DeviceChoice::Listed(i)) => {
                    &&& i < names@.len()
                    &&& name_matches(names@[i as int], text@)
                    &&& forall|j: int| 0 <= j < i ==> !name_matches(#[trigger] names@[j], text@)
                },
                Ok(DeviceChoice::Default) => false,
                Err(e) => {
                    &&& e == DeviceError::NoMatch
                    &&& forall|j: int|
                        0 <= j < names@.len() ==> !name_matches(#[trigger] names@[j], text@)
                },
            },
        },
        wanted matches Some(text) ==> match r {
            Ok(DeviceChoice::Listed(i)) => {
                &&& i < names@.len()
                &&& names@[i as int] matches Some(n) && contains_text(n@, text@)
                &&& forall|j: int|
                    0 <= j < i ==> (#[trigger] names@[j] matches Some(n) ==> !contains_text(
                        n@,
                        text@,
                    ))
            },
            Ok(DeviceChoice::Default) => false,
            Err(_) => forall|j: int|
                0 <= j < names@.len() ==> (#[trigger] names@[j] matches Some(n) ==> !contains_text(
                    n@,
                    text@,
                )),
        },
{
    let text = match wanted {
        Some(text) => text,
        None => {
            return if has_default {
                Ok(DeviceChoice::Default)
            } else {
                Err(DeviceError::NoDefault)
            };
        },
    };
    let mut i: usize = 0;
    while i < names.len()
        invariant
            wanted == Some(text),
            i <= names@.len(),
            forall|j: int| 0 <= j < i ==> !name_matches(#[trigger] names@[j], text@),
        decreases names@.len() - i,
    {
        match &names[i] {
            Some(name) => {
                if text_contains(name.as_str(), text) {
                    return Ok(DeviceChoice::Listed(i));
                }
            },
            None => {},
        }
        i = i + 1;
    }
    Err(DeviceError::NoMatch)
}

} // verus!
