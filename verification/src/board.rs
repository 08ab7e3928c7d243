pub mod virt;
pub mod visionfive2;

pub use self::virt::machine;
