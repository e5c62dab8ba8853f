//! Bang: the decisions of a UEFI bootloader, as a verified library.
//!
//! Everything a bootloader computes from bytes it has read and values the
//! firmware has handed it — parsing its configuration, recognising kernels,
//! laying out Multiboot information, preparing a Linux handover — lives here.
//! Reading files, allocating pages and jumping into kernels do not.

pub mod le;
pub mod text;
pub mod ucs2;
pub mod config;
pub mod discover;
pub mod menu;
pub mod elf;
pub mod gop;
pub mod modules;
pub mod multiboot;
pub mod linux;
