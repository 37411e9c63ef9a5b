pub mod descriptor;
pub mod device;
pub mod lock;
pub mod probe;
