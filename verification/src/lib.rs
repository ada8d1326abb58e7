pub mod address;
pub mod clock;
pub mod error_code;
pub mod id;
pub mod message;
pub mod routing;
pub mod storage;
pub mod storage_trace;
pub mod timer;
pub mod token;
pub mod transaction;
pub mod worker;
