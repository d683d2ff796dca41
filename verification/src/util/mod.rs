pub mod pid;
pub mod piderator;
