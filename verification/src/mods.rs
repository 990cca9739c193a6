//! Mods: which files in the mod directory are mods, the ABI version a mod
//! must declare, the text handed across the C boundary, and what the mod-side
//! callback runner reports.
use crate::text::{chars_of, decimal_digits, decimal_u64, push_char, push_text};
use vstd::prelude::*;

verus! {

/// The ABI version that the host and every mod must agree on.
pub const VMA_ABI_VERSION: u32 = 1;

#[derive(Clone, Copy, Debug, PartialEq, Eq, Structural)]
pub enum VmaLogLevel {
    Trace,
    Debug,
    Info,
    Warn,
    Error,
}

#[derive(Clone, Copy, Debug, PartialEq, Eq, Structural)]
pub enum VmaResultCode {
    Succeeded,
    Failed,
}

/// What the host knows of a loaded mod.
#[derive(Debug)]
pub struct LoadedModInfo {
    pub name: String,
    pub version: String,
    pub path: std::path::PathBuf,
}

/// The code of `c` with an upper-case ASCII letter lowered.
pub open spec fn ascii_lower_code(c: char) -> u32 {
    if 'A' <= c && c <= 'Z' {
        (c as u32 + 32) as u32
    } else {
        c as u32
    }
}

/// `text` equals the lower-case ASCII `lower` when ASCII letters are compared
/// without regard to case.
pub open spec fn eq_ignore_ascii_case(text: Seq<char>, lower: Seq<char>) -> bool {
    text.len() == lower.len() && forall|i: int| 0 <= i < text.len() ==> ascii_lower_code(#[trigger] text[i]) == lower[i] as u32
}

pub open spec fn mcemod_extension() -> Seq<char> {
    seq!['m', 'c', 'e', 'm', 'o', 'd']
}

pub open spec fn dll_extension() -> Seq<char> {
    seq!['d', 'l', 'l']
}

/// A file extension names a mod: `mcemod` or `dll`, in any case.
pub open spec fn spec_is_mod_extension(extension: Seq<char>) -> bool {
    eq_ignore_ascii_case(extension, mcemod_extension()) || eq_ignore_ascii_case(extension, dll_extension())
}

fn lower_ascii_code(c: char) -> (code: u32)
    ensures
        code == ascii_lower_code(c),
{
    let code = c as u32;
    if 65 <= code && code <= 90 {
        code + 32
    } else {
        code
    }
}

fn matches_ignoring_case(chars: &Vec<char>, lower: &str) -> (same: bool)
    ensures
        same == eq_ignore_ascii_case(chars@, lower@),
{
    let wanted = chars_of(lower);
    if chars.len() != wanted.len() {
        return false;
    }
    let mut i: usize = 0;
    while i < chars.len()
        invariant
            i <= chars@.len(),
            chars@.len() == wanted@.len(),
            wanted@ == lower@,
            forall|j: int| 0 <= j < i ==> ascii_lower_code(#[trigger] chars@[j]) == wanted@[j] as u32,
        decreases chars@.len() - i,
    {
        if lower_ascii_code(chars[i]) != wanted[i] as u32 {
            return false;
        }
        i = i + 1;
    }
    true
}

/// Whether a file extension names a mod.
pub fn is_mod_extension(extension: &str) -> (is_mod: bool)
    ensures
        is_mod == spec_is_mod_extension(extension@),
{
    proof {
        reveal_strlit("mcemod");
        reveal_strlit("dll");
        assert("mcemod"@ =~= mcemod_extension());
        assert("dll"@ =~= dll_extension());
    }
    let chars = chars_of(extension);
    matches_ignoring_case(&chars, "mcemod") || matches_ignoring_case(&chars, "dll")
}

/// A directory entry is loaded as a mod when it is a file whose extension,
/// readable as text, names a mod.
pub fn is_mod_entry(is_file: bool, extension: Option<&str>) -> (is_mod: bool)
    ensures
        is_mod == (is_file && match extension {
            Some(e) => spec_is_mod_extension(e@),
            None => false,
        }),
{
    if !is_file {
        return false;
    }
    match extension {
        Some(e) => is_mod_extension(e),
        None => false,
    }
}

/// `text` with every NUL character replaced by a space.
pub open spec fn spec_sanitize(text: Seq<char>) -> Seq<char> {
    text.map_values(|c: char| if c == '\0' { ' ' } else { c })
}

/// Text made safe to hand across the C boundary: every NUL becomes a space.
pub fn sanitize_for_c(value: &str) -> (sanitized: String)
    ensures
        sanitized@ == spec_sanitize(value@),
{
    let chars = chars_of(value);
    let mut sanitized = String::new();
    let mut i: usize = 0;
    while i < chars.len()
        invariant
            i <= chars@.len(),
            chars@ == value@,
            sanitized@ == spec_sanitize(value@.take(i as int)),
        decreases chars@.len() - i,
    {
        let c = chars[i];
        push_char(&mut sanitized, if c == '\0' { ' ' } else { c });
        proof {
            assert(spec_sanitize(value@.take(i as int)).push(if c == '\0' { ' ' } else { c }) =~= spec_sanitize(
                value@.take(i + 1),
            ));
        }
        i = i + 1;
    }
    proof {
        assert(value@.take(i as int) =~= value@);
    }
    sanitized
}

/// Sanitized text has no NUL in it and as many characters as before, so the
/// C string made from it keeps all of it.
pub proof fn law_sanitized_has_no_nul(text: Seq<char>)
    ensures
        !spec_sanitize(text).contains('\0'),
        spec_sanitize(text).len() == text.len(),
{
    if spec_sanitize(text).contains('\0') {
        let i = choose|i: int| 0 <= i < spec_sanitize(text).len() && spec_sanitize(text)[i] == '\0';
        assert(spec_sanitize(text)[i] == (if text[i] == '\0' { ' ' } else { text[i] }));
    }
}

/// Whether a mod built for `abi_version` can be loaded by this host.
pub fn abi_matches(abi_version: u32) -> (matches: bool)
    ensures
        matches == (abi_version == VMA_ABI_VERSION),
{
    abi_version == VMA_ABI_VERSION
}

/// How a mod callback ended.
pub enum CallbackOutcome {
    Completed(Result<(), String>),
    Panicked,
}

pub open spec fn panicked_during(callback_name: Seq<char>) -> Seq<char> {
    seq!['m', 'o', 'd', ' ', 'p', 'a', 'n', 'i', 'c', 'k', 'e', 'd', ' ', 'd', 'u', 'r', 'i', 'n', 'g', ' ']
        + callback_name
}

/// The error that the host is told of when a callback panics.
pub fn panic_message(callback_name: &str) -> (message: String)
    ensures
        message@ == panicked_during(callback_name@),
{
    proof {
        reveal_strlit("mod panicked during ");
        assert("mod panicked during "@ =~= panicked_during(Seq::<char>::empty()));
    }
    let mut message = String::new();
    push_text(&mut message, "mod panicked during ");
    push_text(&mut message, callback_name);
    proof {
        assert(message@ =~= panicked_during(callback_name@));
    }
    message
}

/// The code that a mod's load callback returns to the host, and the error it
/// logs first, if any: success gives `Succeeded`; a refusal logs its message and a
/// panic logs that it panicked, and both give `Failed`.
pub fn load_outcome(outcome: CallbackOutcome) -> (result: (VmaResultCode, Option<String>))
    ensures
        match outcome {
            CallbackOutcome::Completed(Ok(())) => result.0 == VmaResultCode::Succeeded && result.1 is None,
            CallbackOutcome::Completed(Err(message)) => result.0 == VmaResultCode::Failed && result.1 == Some(message),
            CallbackOutcome::Panicked => result.0 == VmaResultCode::Failed && (result.1 matches Some(logged)
                && logged@ == panicked_during("on_load"@)),
        },
{
    match outcome {
        CallbackOutcome::Completed(Ok(())) => (VmaResultCode::Succeeded, None),
        CallbackOutcome::Completed(Err(message)) => (VmaResultCode::Failed, Some(message)),
        CallbackOutcome::Panicked => (VmaResultCode::Failed, Some(panic_message("on_load"))),
    }
}

/// The error that a void, player or command callback logs: none when it
/// returned, and that it panicked otherwise.
pub fn callback_log(outcome_panicked: bool, callback_name: &str) -> (logged: Option<String>)
    ensures
        match logged {
            Some(message) => outcome_panicked && message@ == panicked_during(callback_name@),
            None => !outcome_panicked,
        },
{
    if outcome_panicked {
        Some(panic_message(callback_name))
    } else {
        None
    }
}


/// The refusal of a mod built for another ABI version.
pub fn abi_mismatch_message(mod_abi_version: u32) -> (message: String)
    ensures
        message@ == "VMA ABI mismatch: host="@ + decimal_digits(VMA_ABI_VERSION as nat) + " mod="@ + decimal_digits(
            mod_abi_version as nat,
        ),
{
    let mut message = String::new();
    push_text(&mut message, "VMA ABI mismatch: host=");
    let host = decimal_u64(VMA_ABI_VERSION as u64);
    push_text(&mut message, host.as_str());
    push_text(&mut message, " mod=");
    let found = decimal_u64(mod_abi_version as u64);
    push_text(&mut message, found.as_str());
    proof {
        assert(Seq::<char>::empty() + "VMA ABI mismatch: host="@ =~= "VMA ABI mismatch: host="@);
    }
    message
}

/// The error a callback logs when one of its text arguments is not valid
/// UTF-8: `<callback> received invalid <argument>: <error>`.
pub fn invalid_argument_message(callback_name: &str, argument: &str, error: &str) -> (message: String)
    ensures
        message@ == callback_name@ + " received invalid "@ + argument@ + ": "@ + error@,
{
    let mut message = String::new();
    push_text(&mut message, callback_name);
    push_text(&mut message, " received invalid ");
    push_text(&mut message, argument);
    push_text(&mut message, ": ");
    push_text(&mut message, error);
    proof {
        assert(Seq::<char>::empty() + callback_name@ =~= callback_name@);
    }
    message
}

/// Sanitizing keeps the text's length, passes every character other than NUL
/// through unchanged at its position, and turns each NUL into a space.
pub proof fn law_sanitize_replaces_only_nul(text: Seq<char>)
    ensures
        spec_sanitize(text).len() == text.len(),
        forall|i: int| 0 <= i < text.len() && text[i] != '\0' ==> #[trigger] spec_sanitize(text)[i] == text[i],
        forall|i: int| 0 <= i < text.len() && text[i] == '\0' ==> #[trigger] spec_sanitize(text)[i] == ' ',
{
}

} // verus!
