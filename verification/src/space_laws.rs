//! What holds of address spaces, by the addresses in them.

use vstd::prelude::*;
use crate::address_space;
use crate::paging;
use crate::paging::MemoryManager;
use crate::pmm::PhysPage;
use crate::vmm;
use crate::vmm::{PageTable, PageTableFlags, VirtAddr};
use crate::walk;

verus! {

/// Address `addr` is one of those that every address space has from the kernel: the
/// lowest 512 GiB, or the highest.
pub open spec fn kernels(addr: u64) -> bool {
    addr < 0x80_0000_0000 || addr >= 0xFFFF_FF80_0000_0000
}

/// Whether an address is the kernel's is up to the highest index of its page.
proof fn lemma_kernels(addr: u64)
    requires
        vmm::canonical(addr),
    ensures
        address_space::shared_slot(walk::slot(walk::page_of(addr), 4)) == kernels(addr),
        0 <= walk::page_of(addr) < walk::page_limit(),
{
    paging::lemma_indices(addr);
    let i = addr as int / 0x80_0000_0000 % 512;
    assert(i == walk::slot(walk::page_of(addr), 4));
    if addr < 0x0000_8000_0000_0000 {
        assert(i == addr as int / 0x80_0000_0000);
    } else {
        assert(addr as int / 0x80_0000_0000 == 0x1FF_FF00 + (addr - 0xFFFF_8000_0000_0000)
            / 0x80_0000_0000);
        assert(i == 256 + (addr - 0xFFFF_8000_0000_0000) / 0x80_0000_0000);
    }
}

/// In a new address space the kernel's addresses translate as under the kernel's own
/// root, and no other address translates to anything. What the other roots make of
/// their addresses is as it was. The root is in a frame that was free and is in use.
pub proof fn lemma_new_space(
    mm0: MemoryManager,
    mem0: Seq<PageTable>,
    mm1: MemoryManager,
    mem1: Seq<PageTable>,
    root: PhysPage,
    other: PhysPage,
    addr: u64,
)
    requires
        mm0.ready(mem0),
        root.0 > 0,
        root.0 % 4096 == 0,
        address_space::space_created(mm0, mem0, mm1, mem1, root.0 as int / 4096),
        mm0.has_root(other),
    ensures
        paging::translation(mem1, root, VirtAddr(addr)) == if kernels(addr) {
            paging::translation(mem0, mm0.root, VirtAddr(addr))
        } else {
            None
        },
        paging::translation(mem1, other, VirtAddr(addr)) == paging::translation(
            mem0,
            other,
            VirtAddr(addr),
        ),
        root != mm0.root,
        root != other,
        mm1.root == mm0.root,
        mm0.pmm@.is_free(root.0 as int / 4096),
        mm1.pmm@.used[root.0 as int / 4096],
        forall|f: int|
            0 <= f < mm0.pmm@.used.len() && f != root.0 as int / 4096
                ==> #[trigger] mm1.pmm@.used[f] == mm0.pmm@.used[f],
{
    let c = root.0 as int / 4096;
    assert(root.0 == 4096 * c);
    address_space::lemma_space_created(mm0, mem0, mm1, mem1, c);
    assert(mm0.is_table(mm0.root.0 as int / 4096));
    assert(mm0.is_table(other.0 as int / 4096));
    if vmm::canonical(addr) {
        lemma_kernels(addr);
        let p = walk::page_of(addr);
        assert(walk::mapping(mem1, c, p) == if kernels(addr) {
            walk::mapping(mem0, mm0.root.0 as int / 4096, p)
        } else {
            None
        });
        assert(walk::mapping(mem1, other.0 as int / 4096, p) == walk::mapping(
            mem0,
            other.0 as int / 4096,
            p,
        ));
    }
}

/// A new address space has no table on the way to an address that is not the kernel's
/// in common with another root.
pub proof fn lemma_new_space_apart(
    mm0: MemoryManager,
    mem0: Seq<PageTable>,
    mm1: MemoryManager,
    mem1: Seq<PageTable>,
    root: PhysPage,
    other: PhysPage,
    addr: u64,
)
    requires
        mm0.ready(mem0),
        root.0 > 0,
        root.0 % 4096 == 0,
        address_space::space_created(mm0, mem0, mm1, mem1, root.0 as int / 4096),
        mm0.has_root(other),
        vmm::canonical(addr),
        !kernels(addr),
    ensures
        !walk::shares(mem1, root.0 as int / 4096, other.0 as int / 4096, walk::page_of(addr)),
{
    address_space::lemma_space_created(mm0, mem0, mm1, mem1, root.0 as int / 4096);
    lemma_kernels(addr);
}

/// Mapping an address in one address space leaves what all addresses translate to in
/// another that has no table on the way to it in common with the first.
pub proof fn lemma_mapped_in_one_space(
    mm0: MemoryManager,
    mem0: Seq<PageTable>,
    mm1: MemoryManager,
    mem1: Seq<PageTable>,
    root: PhysPage,
    other: PhysPage,
    virt: VirtAddr,
    phys: PhysPage,
    flags: PageTableFlags,
    addr: u64,
)
    requires
        mm0.has_root(root),
        mm0.has_root(other),
        root != other,
        !walk::shares(mem0, root.0 as int / 4096, other.0 as int / 4096, walk::page_of(virt.0)),
        paging::page_mapped(
            mm0,
            mem0,
            mm1,
            mem1,
            root.0 as int / 4096,
            walk::page_of(virt.0),
            vmm::entry_for(phys.0, flags),
        ),
    ensures
        paging::translation(mem1, other, VirtAddr(addr)) == paging::translation(
            mem0,
            other,
            VirtAddr(addr),
        ),
{
    let a = root.0 as int / 4096;
    let b = other.0 as int / 4096;
    assert(root.0 == 4096 * a && other.0 == 4096 * b);
    let p = walk::page_of(addr);
    assert(0 <= p < walk::page_limit());
    assert(0 <= walk::page_of(virt.0) < walk::page_limit());
    address_space::lemma_spaces_isolated(
        mm0,
        mem0,
        mm1,
        mem1,
        a,
        b,
        walk::page_of(virt.0),
        vmm::entry_for(phys.0, flags),
        p,
    );
}

} // verus!
