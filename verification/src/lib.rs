//! A firmware-resident loader for the Linux x86-64 boot protocol, modeled
//! against an explicit firmware context so that every step of the boot
//! orchestration is verified: page and pool allocation, file access on a
//! volume, configuration parsing, staging of the kernel and initrd images,
//! construction of the byte-exact boot parameter block, and the one-way
//! snapshot / exit-boot-services / jump sequence.

pub mod boot;
pub mod config;
pub mod firmware;
pub mod fs;
pub mod loader;
pub mod memory;
pub mod params;
pub mod status;
pub mod string;

pub use memory::page_count;
