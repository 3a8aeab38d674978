//! The backend selector that the unified op layer dispatches on.
use crate::text::{ascii_eq_ignore_case, ascii_lower, eq_ignore_ascii_case};
use vstd::prelude::*;
use vstd::utf8::encode_utf8;

verus! {

/// Where an op runs: the host reference path or the Vulkan compute path.
#[derive(Clone, Copy, Debug, PartialEq, Eq, Structural)]
pub enum Device {
    Cpu,
    Gpu,
}

impl Device {
    /// The lower-case name used on the command line and in diagnostics.
    pub open spec fn spec_name(self) -> Seq<char> {
        match self {
            Device::Cpu => "cpu"@,
            Device::Gpu => "gpu"@,
        }
    }

    pub fn name(&self) -> (res: &'static str)
        ensures
            res@ == self.spec_name(),
    {
        match self {
            Device::Cpu => "cpu",
            Device::Gpu => "gpu",
        }
    }
}

impl Device {
    /// Parse a `--device` value, ignoring ASCII case; anything else is `None`.
    pub fn from_cli(s: &str) -> (res: Option<Device>)
        ensures
            res == spec_from_cli(s@),
    {
        if eq_ignore_ascii_case(s, "cpu") {
            Some(Device::Cpu)
        } else if eq_ignore_ascii_case(s, "gpu") {
            Some(Device::Gpu)
        } else {
            None
        }
    }
}

/// The device a `--device` value names, ignoring ASCII case.
pub open spec fn spec_from_cli(s: Seq<char>) -> Option<Device> {
    if ascii_eq_ignore_case(encode_utf8(s), encode_utf8("cpu"@)) {
        Some(Device::Cpu)
    } else if ascii_eq_ignore_case(encode_utf8(s), encode_utf8("gpu"@)) {
        Some(Device::Gpu)
    } else {
        None
    }
}

/// A device's name, in any ASCII case (`gpu`, `GPU`, `Gpu`, ...), parses back
/// to that device.
pub proof fn lemma_from_cli_name(d: Device, s: Seq<char>)
    requires
        ascii_eq_ignore_case(encode_utf8(s), encode_utf8(d.spec_name())),
    ensures
        spec_from_cli(s) == Some(d),
{
    reveal_strlit("cpu");
    reveal_strlit("gpu");
    let c = encode_utf8("cpu"@);
    let g = encode_utf8("gpu"@);
    assert(c[0] == (('c' as u32) & 0x7F) as u8);
    assert(g[0] == (('g' as u32) & 0x7F) as u8);
    assert((0x63u32 & 0x7F) as u8 == 0x63u8) by (bit_vector);
    assert((0x67u32 & 0x7F) as u8 == 0x67u8) by (bit_vector);
    assert(c.len() > 0 && g.len() > 0);
    if d == Device::Gpu {
        if ascii_eq_ignore_case(encode_utf8(s), c) {
            assert(ascii_lower(encode_utf8(s)[0]) == ascii_lower(c[0]));
            assert(ascii_lower(encode_utf8(s)[0]) == ascii_lower(g[0]));
        }
    }
}

/// In particular a device's own name parses back to it.
pub proof fn lemma_from_cli_own_name(d: Device)
    ensures
        spec_from_cli(d.spec_name()) == Some(d),
{
    let b = encode_utf8(d.spec_name());
    assert(ascii_eq_ignore_case(b, b));
    lemma_from_cli_name(d, d.spec_name());
}

} // verus!
