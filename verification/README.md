# Ventura

The memory, process and device logic of the Ventura x86-64 kernel, written in
Verus: every function states its behaviour in a contract that is proved.

Kernel state is explicit. Physical memory is a slice of frames, and a
`MemoryManager` holds the page allocator, the registry of virtual regions and
the root of the page tables. Functions take the state they work on and say how
it changes; what only the processor can do (ports, control registers, switching
stacks) is returned to the caller as a value.

| Modules | What they are about |
|---|---|
| `memory`, `pmm` | the firmware's memory map, and the physical page allocator |
| `vmm`, `walk`, `paging`, `regions`, `kernel_space` | virtual addresses, page tables, regions, and the kernel's own address space |
| `window`, `blocks`, `heap` | memory behind virtual addresses, and the kernel heap |
| `ids`, `address_space`, `context`, `thread`, `process` | address spaces, stacks and switching, threads and processes |
| `gdt`, `idt`, `apic`, `timer`, `platform`, `logger` | descriptor tables, interrupts, controllers, the timer, and the log |
| `vmm_check`, `heap_plan`, `heap_check`, `context_check`, `thread_check`, `process_check` | the self-tests that the kernel runs on itself |
| `kept`, `marks` | what a stretch of work leaves as it was, and what the processor's marks in tables do not change |
| `laws`, `heap_laws` | what holds of several operations together |

`app/` is the kernel around the library: entry point, assembly, device access
and the global allocator. `tests/` runs the library on simulated memory.
