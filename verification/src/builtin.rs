//! Support that the compiler and the panic handler rely on.
pub mod backtrace;
pub mod mem;
