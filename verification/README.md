# OnyxOS

The logic of a small x86_64 operating system, written in Verus: every item under
`src/` is verified, and its contracts say what it does.

- Memory and tasks: `memory`, `allocator`, `scheduler`, `smp`, `ksl`, `fpu`, `gdt`,
  `tasks`, `bench`, `perf`, `time`.
- Devices: `acpi`, `apic`, `pic`, `pit`, `interrupts`, `pci`, `rtc`, `input`,
  `keyboard`, `mouse`, `framebuffer`, `gpu`, `ata`.
- Storage: `sectors`, `blkcache`, `block`, `image`, `vfs`, `fat`, `ext2`. What a
  read gives back of a write, and what removing, renaming and making directories
  leave, is proved in `fat_laws` and `ext2_laws`; that each of them leaves every
  other path alone, in `fat_spares` and `ext2_spares`; that the free counts stay
  right and that a mount finds them again, in `ext2_counts`.
- Programs: `elf`, `userspace`, `fds`, `syscall`, `linux`, `errno`.
- Shared: `bytes`, `text`.

Functions whose names begin with `law_` relate several operations; their doc
comments say in words what they prove.

The file systems work on the sectors that they were given. Where one is missing
an operation answers `Io(Pending(lba))` with the first sector that it lacks: the
caller fetches it and asks again from the volume as it was. With the sectors of a
volume at hand nothing waits. Sectors that an operation wrote are logged, every
other one is as it was, and the caller sends the logged ones to the disk.

`app/` is ordinary Rust around the library: port and memory-mapped I/O, page
tables, assembly for interrupts, system calls and switches, the kernel's entry,
and the host tool that appends partitions to a boot image. `tests/` runs the
library on concrete values.
