//! The memory, process and device logic of the Ventura x86-64 kernel, with its
//! behaviour stated in contracts.
//!
//! Every piece of kernel state is an explicit value; what only the processor
//! can do (port and register access, `CR3`, context switching) is left to the
//! caller, who performs it with the values that these functions return.

pub mod address_space;
pub mod apic;
pub mod blocks;
pub mod boot_laws;
pub mod check_laws;
pub mod context;
pub mod context_check;
pub mod context_laws;
pub mod gdt;
pub mod heap;
pub mod heap_check;
pub mod heap_laws;
pub mod heap_plan;
pub mod heap_state_laws;
pub mod idt;
pub mod ids;
pub mod kernel_space;
pub mod kept;
pub mod laws;
pub mod logger;
pub mod marks;
pub mod memory;
pub mod paging;
pub mod paging_laws;
pub mod platform;
pub mod pmm;
pub mod process;
pub mod process_check;
pub mod region_laws;
pub mod regions;
pub mod space_laws;
pub mod task_laws;
pub mod thread;
pub mod thread_check;
pub mod timer;
pub mod vmm;
pub mod vmm_check;
pub mod walk;
pub mod window;
