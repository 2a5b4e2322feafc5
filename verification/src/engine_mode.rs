use vstd::prelude::*;
use vstd::utf8::*;
use crate::decimal::{nat_digits, u64_to_string};
use crate::text::{ascii_lower_bytes, ascii_lower_eq, prefixed};

verus! {

/// Which storage engine the program runs.
#[derive(Debug, Clone, Copy, PartialEq, Eq, Structural)]
pub enum EngineMode {
    Wal,
    Hybrid,
    Memory,
}

/// The engine a mode name asks for, ignoring ASCII case: `wal`, `disk` and `bptree` are the
/// log-structured store, `hybrid` the cached one, and any other name the memory store.
pub open spec fn engine_mode_named(lower: Seq<u8>) -> EngineMode {
    if lower == seq![119u8, 97u8, 108u8] || lower == seq![100u8, 105u8, 115u8, 107u8] || lower
        == seq![98u8, 112u8, 116u8, 114u8, 101u8, 101u8] {
        EngineMode::Wal
    } else if lower == seq![104u8, 121u8, 98u8, 114u8, 105u8, 100u8] {
        EngineMode::Hybrid
    } else {
        EngineMode::Memory
    }
}

/// The engine that `mode` names (see `engine_mode_named`).
pub fn engine_mode(mode: &str) -> (r: EngineMode)
    ensures
        r == engine_mode_named(ascii_lower_bytes(encode_utf8(mode@))),
{
    let b = mode.as_bytes();
    let wal: [u8; 3] = [119u8, 97u8, 108u8];
    let disk: [u8; 4] = [100u8, 105u8, 115u8, 107u8];
    let bptree: [u8; 6] = [98u8, 112u8, 116u8, 114u8, 101u8, 101u8];
    let hybrid: [u8; 6] = [104u8, 121u8, 98u8, 114u8, 105u8, 100u8];
    proof {
        assert(wal@ =~= seq![119u8, 97u8, 108u8]);
        assert(disk@ =~= seq![100u8, 105u8, 115u8, 107u8]);
        assert(bptree@ =~= seq![98u8, 112u8, 116u8, 114u8, 101u8, 101u8]);
        assert(hybrid@ =~= seq![104u8, 121u8, 98u8, 114u8, 105u8, 100u8]);
    }
    if ascii_lower_eq(b, wal.as_slice()) || ascii_lower_eq(b, disk.as_slice()) || ascii_lower_eq(
        b,
        bptree.as_slice(),
    ) {
        EngineMode::Wal
    } else if ascii_lower_eq(b, hybrid.as_slice()) {
        EngineMode::Hybrid
    } else {
        EngineMode::Memory
    }
}

/// Whether a flag's text turns it on: `1`, `true`, `yes` or `on`, ignoring ASCII case.
pub fn flag_is_on(value: &str) -> (r: bool)
    ensures
        r == ({
            let l = ascii_lower_bytes(encode_utf8(value@));
            l == seq![49u8] || l == seq![116u8, 114u8, 117u8, 101u8] || l == seq![121u8, 101u8, 115u8]
                || l == seq![111u8, 110u8]
        }),
{
    let b = value.as_bytes();
    let one: [u8; 1] = [49u8];
    let tru: [u8; 4] = [116u8, 114u8, 117u8, 101u8];
    let yes: [u8; 3] = [121u8, 101u8, 115u8];
    let on: [u8; 2] = [111u8, 110u8];
    proof {
        assert(one@ =~= seq![49u8]);
        assert(tru@ =~= seq![116u8, 114u8, 117u8, 101u8]);
        assert(yes@ =~= seq![121u8, 101u8, 115u8]);
        assert(on@ =~= seq![111u8, 110u8]);
    }
    ascii_lower_eq(b, one.as_slice()) || ascii_lower_eq(b, tru.as_slice()) || ascii_lower_eq(
        b,
        yes.as_slice(),
    ) || ascii_lower_eq(b, on.as_slice())
}

/// How long a command took: whole milliseconds from one on (`5 ms`), else microseconds
/// (`250 us`).
pub fn format_elapsed(millis: u64, micros: u64) -> (r: String)
    ensures
        r@ == if millis >= 1 {
            decode_utf8(nat_digits(millis as nat)) + " ms"@
        } else {
            decode_utf8(nat_digits(micros as nat)) + " us"@
        },
{
    let (n, unit) = if millis >= 1 {
        (millis, " ms")
    } else {
        (micros, " us")
    };
    let t = u64_to_string(n);
    proof {
        encode_utf8_decode_utf8(t@);
    }
    prefixed(t.as_str(), unit)
}

} // verus!
