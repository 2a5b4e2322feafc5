use vstd::prelude::*;

verus! {

/// The change that a log record carries.
#[derive(Copy, Clone, PartialEq, Eq, Hash, Debug, Structural)]
pub enum OprationType {
    Insert,
    Delete,
    Update,
}

/// The byte that stands for an operation in a log record.
pub open spec fn opration_type_byte(op: OprationType) -> u8 {
    match op {
        OprationType::Insert => 0,
        OprationType::Delete => 1,
        OprationType::Update => 2,
    }
}

impl From<OprationType> for u8 {
    fn from(op: OprationType) -> (r: u8) {
        match op {
            OprationType::Insert => 0,
            OprationType::Delete => 1,
            OprationType::Update => 2,
        }
    }
}

impl vstd::std_specs::convert::FromSpecImpl<OprationType> for u8 {
    open spec fn obeys_from_spec() -> bool {
        true
    }

    open spec fn from_spec(op: OprationType) -> u8 {
        opration_type_byte(op)
    }
}

} // verus!
