//! The hardware-independent logic of the AgentOS kernel, verified.
//!
//! Nothing in this crate touches a port, a register or a pointer. Sectors,
//! frames and register values come in as plain data and go out as plain data;
//! the code around the library moves them to and from the machine.

pub mod ata;
pub mod bytes;
pub mod calls;
pub mod device;
pub mod disk;
pub mod fat_common;
pub mod gdt;
pub mod gguf_loader;
pub mod interrupts;
pub mod keyboard;
pub mod memory;
pub mod net;
pub mod partition;
pub mod pci;
pub mod ring3;
pub mod rtc;
pub mod text;
pub mod fat12;
pub mod fat32;
