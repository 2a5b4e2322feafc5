pub mod entry_type;
pub mod opration_type;
