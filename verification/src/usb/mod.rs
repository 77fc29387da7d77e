pub mod protocol;
pub mod device;
