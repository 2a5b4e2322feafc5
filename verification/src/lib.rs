pub mod decimal;
pub mod byte_order;
pub mod text;
pub mod key_codec;
pub mod value_codec;
pub mod wal;
pub mod assoc_map;
pub mod clock;
pub mod engine_mode;
pub mod storage;
pub mod key_order;
pub mod ioc;
