# agentos_kernel

The parts of a small x86-64 kernel that can be computed without touching the machine, written
in Rust and verified with Verus: file systems, network protocols, drivers, the frame and block
allocators, the keyboard, the model loader, and the programs that run in user mode.

Nothing in the library reads a port, a register or a disk. Where the kernel talks to a device,
the library holds the driver's side of the conversation as a value: each state says what to
write and what to ask, and the answers lead to the next state. Where a file system needs a
sector, the request says which, and is made again once the sector is there.

## Layout

- `src/` is the verified library.
  - `bytes`, `text`, `device`, `disk`: numbers in bytes, names, operations on devices, sectors.
  - `partition`, `fat_common`, `fat12`, `fat32`: partition tables and file systems. `fat12`
    reads and writes; its submodules hold the model of a volume, what each operation does to
    it, and what the operations promise together.
  - `pci`, `ata`, `rtc`: the bus, the disk drive and the clock.
  - `net`: checksums, ARP, ICMP, UDP, TCP, DNS, and two network cards.
  - `keyboard`: the line editor behind the keyboard interrupt.
  - `gguf_loader`: model files, up to the point where weights become floating point.
  - `memory`, `gdt`, `interrupts`, `ring3`: frames, pages, segments, the interrupt table, and
    user code, with a model of the instructions that it is made of.
- `tests/` runs the library on concrete values.
- `app/` is the kernel around it: the entry point, the ports, the page tables, the interrupt
  entries, and floating point.

## What is trusted

Each of these says in its doc comment what is claimed of the function that it calls:

- `text`: `String::push`.
- `gguf_loader`: `std::str::from_utf8`.
- `memory::frame_allocator`: `x86_64`'s `PhysFrame::containing_address`.
- `memory::paging`: `x86_64`'s `VirtAddr::try_new` and `PageTableFlags::contains`.
- `memory::user_page`: `x86_64`'s `Page::containing_address` and `PageTableFlags::bits`.
