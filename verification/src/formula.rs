//! The part of the formula pipeline that decides how a formula is loaded: a
//! pre-built DLL is loaded directly, anything else is compiled first.
use crate::text::{ascii_eq_ignore_case, eq_ignore_ascii_case, path_extension, simple_path_extension};
use vstd::prelude::*;
use vstd::utf8::encode_utf8;

verus! {

/// A file extension that names a pre-built DLL: `dll` in any ASCII case.
pub open spec fn spec_is_dll_extension(ext: Option<Seq<char>>) -> bool {
    match ext {
        Some(e) => ascii_eq_ignore_case(encode_utf8(e), encode_utf8("dll"@)),
        None => false,
    }
}

pub fn is_dll_extension(ext: Option<&str>) -> (res: bool)
    ensures
        res == spec_is_dll_extension(
            match ext {
                Some(e) => Some(e@),
                None => None,
            },
        ),
{
    match ext {
        Some(e) => eq_ignore_ascii_case(e, "dll"),
        None => false,
    }
}

/// The entry point a loaded formula is run through.
#[derive(Clone, Copy, Debug, PartialEq, Eq, Structural)]
pub enum Entry {
    /// Its GLSL kernel, on the Vulkan engine.
    Gpu,
    /// `rtorch_output_size` + `rtorch_compute`, on the host.
    Protocol,
    /// The legacy `rtorch_main`.
    Legacy,
    /// None of them: the formula cannot be run.
    Missing,
}

/// Which entry point runs a formula, given the symbols it exports: on an
/// accelerator (`device > 0`) a GPU kernel wins; otherwise the output-size +
/// compute protocol (both are needed), then the legacy `rtorch_main`.
pub fn choose_entry(
    device: i32,
    has_gpu_kernel: bool,
    has_output_size: bool,
    has_compute: bool,
    has_legacy_main: bool,
) -> (res: Entry)
    ensures
        res == (if device > 0 && has_gpu_kernel {
            Entry::Gpu
        } else if has_output_size && has_compute {
            Entry::Protocol
        } else if has_legacy_main {
            Entry::Legacy
        } else {
            Entry::Missing
        }),
{
    if device > 0 && has_gpu_kernel {
        Entry::Gpu
    } else if has_output_size && has_compute {
        Entry::Protocol
    } else if has_legacy_main {
        Entry::Legacy
    } else {
        Entry::Missing
    }
}

/// The bytes of a formula's output that count: the length the formula
/// reported, but never more than the buffer it was given.
pub fn produced_len(reported: usize, capacity: usize) -> (res: usize)
    ensures
        res == (if reported < capacity {
            reported
        } else {
            capacity
        }),
{
    if reported < capacity {
        reported
    } else {
        capacity
    }
}

/// Whether `path` names a pre-built formula DLL (by its extension).
pub fn is_dll(path: &str) -> (res: bool)
    ensures
        !path@.contains('.') ==> !res,
        simple_path_extension(path@) matches Some(x) ==> res == spec_is_dll_extension(Some(x)),
{
    match path_extension(path) {
        Some(e) => is_dll_extension(Some(e.as_str())),
        None => is_dll_extension(None),
    }
}

} // verus!
