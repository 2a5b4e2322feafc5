use vstd::prelude::*;
use vstd::utf8::*;
use crate::text::{ascii_lower_bytes, ascii_lower_eq};

verus! {

/// When the hybrid store repairs its cache from disk on its own.
#[derive(Debug, Clone, Copy, PartialEq, Eq, Structural)]
pub enum RepairMode {
    Off,
    Read,
    Write,
    Always,
}

/// The ASCII name of a repair mode.
pub open spec fn repair_mode_name(m: RepairMode) -> Seq<u8> {
    match m {
        RepairMode::Off => seq![111u8, 102u8, 102u8],
        RepairMode::Read => seq![114u8, 101u8, 97u8, 100u8],
        RepairMode::Write => seq![119u8, 114u8, 105u8, 116u8, 101u8],
        RepairMode::Always => seq![97u8, 108u8, 119u8, 97u8, 121u8, 115u8],
    }
}

/// The mode whose name the ASCII-lower-cased bytes spell, if any.
pub open spec fn repair_mode_named(lower: Seq<u8>) -> Option<RepairMode> {
    if lower == repair_mode_name(RepairMode::Off) {
        Some(RepairMode::Off)
    } else if lower == repair_mode_name(RepairMode::Read) {
        Some(RepairMode::Read)
    } else if lower == repair_mode_name(RepairMode::Write) {
        Some(RepairMode::Write)
    } else if lower == repair_mode_name(RepairMode::Always) {
        Some(RepairMode::Always)
    } else {
        None
    }
}

impl RepairMode {
    /// The mode that `raw` names, ignoring ASCII case.
    pub fn from_input(raw: &str) -> (r: Option<RepairMode>)
        ensures
            r == repair_mode_named(ascii_lower_bytes(encode_utf8(raw@))),
    {
        let b = raw.as_bytes();
        let off: [u8; 3] = [111u8, 102u8, 102u8];
        let read: [u8; 4] = [114u8, 101u8, 97u8, 100u8];
        let write: [u8; 5] = [119u8, 114u8, 105u8, 116u8, 101u8];
        let always: [u8; 6] = [97u8, 108u8, 119u8, 97u8, 121u8, 115u8];
        proof {
            assert(off@ =~= repair_mode_name(RepairMode::Off));
            assert(read@ =~= repair_mode_name(RepairMode::Read));
            assert(write@ =~= repair_mode_name(RepairMode::Write));
            assert(always@ =~= repair_mode_name(RepairMode::Always));
        }
        if ascii_lower_eq(b, off.as_slice()) {
            Some(RepairMode::Off)
        } else if ascii_lower_eq(b, read.as_slice()) {
            Some(RepairMode::Read)
        } else if ascii_lower_eq(b, write.as_slice()) {
            Some(RepairMode::Write)
        } else if ascii_lower_eq(b, always.as_slice()) {
            Some(RepairMode::Always)
        } else {
            None
        }
    }

    /// The mode's name.
    pub fn as_str(self) -> (r: &'static str)
        ensures
            encode_utf8(r@) == repair_mode_name(self),
    {
        proof {
            reveal_strlit("off");
            reveal_strlit("read");
            reveal_strlit("write");
            reveal_strlit("always");
            is_ascii_chars_encode_utf8("off"@);
            is_ascii_chars_encode_utf8("read"@);
            is_ascii_chars_encode_utf8("write"@);
            is_ascii_chars_encode_utf8("always"@);
            assert(encode_utf8("off"@) =~= repair_mode_name(RepairMode::Off));
            assert(encode_utf8("read"@) =~= repair_mode_name(RepairMode::Read));
            assert(encode_utf8("write"@) =~= repair_mode_name(RepairMode::Write));
            assert(encode_utf8("always"@) =~= repair_mode_name(RepairMode::Always));
        }
        match self {
            RepairMode::Off => "off",
            RepairMode::Read => "read",
            RepairMode::Write => "write",
            RepairMode::Always => "always",
        }
    }
}

/// Reading a mode's name back gives the mode.
pub proof fn lemma_repair_mode_name_roundtrip(m: RepairMode)
    ensures
        repair_mode_named(ascii_lower_bytes(repair_mode_name(m))) == Some(m),
{
    assert(ascii_lower_bytes(repair_mode_name(m)) =~= repair_mode_name(m));
}

/// Names ignore ASCII case, and a name that reads as a mode is that mode's own name
/// (`from_input(s) == Some(m)` means `m.as_str()` is `s` lower-cased).
pub proof fn lemma_repair_mode_named_exactly(l: Seq<u8>, m: RepairMode)
    ensures
        repair_mode_named(ascii_lower_bytes(l)) == Some(m) <==> ascii_lower_bytes(l) == repair_mode_name(m),
{
}

} // verus!
