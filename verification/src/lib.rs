//! The logic of the OnyxOS kernel: the parts that decide and compute, as
//! functions from plain values to plain values. Port I/O, memory-mapped
//! registers and the boot sequence live outside this crate and call in.
#![allow(unused_imports)]

use vstd::prelude::*;

pub mod acpi;
pub mod allocator;
pub mod apic;
pub mod ata;
pub mod bench;
pub mod blkcache;
pub mod block;
pub mod bus_laws;
pub mod bytes;
pub mod cache_laws;
pub mod clock_laws;
pub mod disk_laws;
pub mod elf;
pub mod elf_format;
pub mod errno;
pub mod ext2;
pub mod ext2_counts;
pub mod ext2_format;
pub mod ext2_laws;
pub mod ext2_spares;
pub mod ext2_write_laws;
pub mod fat;
pub mod fat_format;
pub mod fat_laws;
pub mod fat_names;
pub mod fat_spares;
pub mod fat_write_laws;
pub mod fds;
pub mod fpu;
pub mod framebuffer;
pub mod gdt;
pub mod gpu;
pub mod gpu_laws;
pub mod image;
pub mod input;
pub mod input_laws;
pub mod interrupts;
pub mod keyboard;
pub mod ksl;
pub mod linux;
pub mod memory;
pub mod memory_laws;
pub mod mouse;
pub mod pci;
pub mod perf;
pub mod pic;
pub mod pit;
pub mod rtc;
pub mod scheduler;
pub mod scheduler_laws;
pub mod screen_laws;
pub mod sectors;
pub mod smp;
pub mod syscall;
pub mod syscall_laws;
pub mod task_laws;
pub mod tasks;
pub mod text;
pub mod text_laws;
pub mod time;
pub mod userspace;
pub mod userspace_laws;
pub mod vfs;

verus! {

} // verus!
