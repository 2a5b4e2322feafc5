use vstd::prelude::*;

verus! {

/// Whether a log record carries a change or marks a checkpoint.
#[derive(Copy, Clone, PartialEq, Eq, Hash, Debug, Structural)]
pub enum EntryType {
    Log,
    Checkpoint,
}

/// The byte that stands for an entry type in a log record.
pub open spec fn entry_type_byte(et: EntryType) -> u8 {
    match et {
        EntryType::Log => 0,
        EntryType::Checkpoint => 1,
    }
}

impl From<EntryType> for u8 {
    fn from(et: EntryType) -> (r: u8) {
        match et {
            EntryType::Log => 0,
            EntryType::Checkpoint => 1,
        }
    }
}

impl vstd::std_specs::convert::FromSpecImpl<EntryType> for u8 {
    open spec fn obeys_from_spec() -> bool {
        true
    }

    open spec fn from_spec(et: EntryType) -> u8 {
        entry_type_byte(et)
    }
}

} // verus!
