//! Address spaces: roots that share the kernel's tables and have their own
//! beside them.

use vstd::prelude::*;
use crate::ids::IdSource;
use crate::kept;
use crate::kept::Since;
use crate::memory::PAGE_SIZE;
use crate::paging;
use crate::paging::{read_word, write_word, MemoryManager};
use crate::pmm::{allocate_physical_page, free_physical_page, PhysPage};
use crate::vmm::{MapError, PageTable, PageTableEntry, PageTableFlags, UnmapError, VirtAddr};
use crate::walk;
use crate::walk::TableRole;

verus! {

#[derive(Copy, Clone, Debug, PartialEq, Eq, Structural)]
pub enum AddressSpaceError {
    RootPageAllocationFailed,
    MappingFailed(MapError),
    UnmappingFailed(UnmapError),
    InvalidVirtualAddress,
}

/// The identifiers of address spaces: where the next comes from, and the one of
/// the space that was activated last.
#[derive(Copy, Clone, Debug, PartialEq, Eq, Structural)]
pub struct AsidState {
    pub ids: IdSource,
    pub current: u64,
}

impl AsidState {
    /// The boot's own address space has identifier 0.
    pub fn new() -> (r: Self)
        ensures
            r.ids.next == 1,
            r.current == 0,
    {
        Self { ids: IdSource::new(), current: 0 }
    }
}

/// The identifier of the address space that was activated last.
pub fn current_asid(asids: &AsidState) -> (r: u64)
    ensures
        r == asids.current,
{
    asids.current
}

/// What the processor has to do to activate an address space.
#[derive(Copy, Clone, Debug, PartialEq, Eq, Structural)]
pub enum Activation {
    /// There is no root: nothing is activated.
    Refused,
    /// The root is in `CR3` already.
    Keep,
    /// The root is to be loaded into `CR3`.
    Load(u64),
}

/// A root and whether it is this address space's own.
#[derive(Debug)]
pub struct AddressSpace {
    pub id: u64,
    pub root_page: PhysPage,
    pub owns_root: bool,
}

/// Entry `i` of a root is shared with the kernel: the first one, for memory and
/// devices at their physical addresses, and the last one.
pub open spec fn shared_slot(i: int) -> bool {
    i == 0 || i == 511
}

/// From one state to another, frame `c`, the first free one, became a root that
/// shares the kernel's entries and has no others; nothing else changed.
pub open spec fn space_created(
    mm0: MemoryManager,
    mem0: Seq<PageTable>,
    mm1: MemoryManager,
    mem1: Seq<PageTable>,
    c: int,
) -> bool {
    let kernel = mm0.root.0 as int / 4096;
    &&& mm0.pmm@.is_first_free(c)
    &&& !mm0.is_table(c)
    &&& mm1.pmm@ == mm0.pmm@.take(c)
    &&& mm1.pmm@.free_count() == mm0.pmm@.free_count() - 1
    &&& mm1.vmm == mm0.vmm
    &&& mm1.root == mm0.root
    &&& mm1.tables() == mm0.tables().insert(c, TableRole { level: 4, prefix: 0 })
    &&& mem1.len() == mem0.len()
    &&& forall|f: int| 0 <= f < mem0.len() && f != c ==> #[trigger] mem1[f] == mem0[f]
    &&& forall|i: int|
        0 <= i < 512 ==> #[trigger] walk::word(mem1, c, i) == if shared_slot(i) {
            walk::word(mem0, kernel, i)
        } else {
            PageTableEntry(0)
        }
}

/// A new address space maps what the kernel maps through the shared entries, and
/// nothing else; what the other roots map is as it was.
pub proof fn lemma_space_created(
    mm0: MemoryManager,
    mem0: Seq<PageTable>,
    mm1: MemoryManager,
    mem1: Seq<PageTable>,
    c: int,
)
    requires
        mm0.ready(mem0),
        0 < c,
        space_created(mm0, mem0, mm1, mem1, c),
    ensures
        mm1.ready(mem1),
        walk::is_root(mm1.tables(), c),
        walk::same_mappings(mem0, mem1, mm0.tables()),
        forall|r: int, p: int, l: nat|
            walk::is_root(mm0.tables(), r) && 0 <= p < walk::page_limit() && 1 <= l
                <= 4 ==> #[trigger] walk::table_at(mem1, r, p, l) == walk::table_at(mem0, r, p, l),
        forall|p: int|
            0 <= p < walk::page_limit() ==> #[trigger] walk::mapping(mem1, c, p) == if shared_slot(
                walk::slot(p, 4),
            ) {
                walk::mapping(mem0, mm0.root.0 as int / 4096, p)
            } else {
                None
            },
        forall|b: int, p: int|
            walk::is_root(mm0.tables(), b) && 0 <= p < walk::page_limit() && !shared_slot(
                walk::slot(p, 4),
            ) ==> !#[trigger] walk::shares(mem1, c, b, p),
        forall|p: int|
            0 <= p < walk::page_limit() && !shared_slot(walk::slot(p, 4))
                ==> #[trigger] walk::table_at(mem1, c, p, 3) is None,
{
    let kernel = mm0.root.0 as int / 4096;
    let tables = mm0.tables();
    assert(mm0.is_table(kernel));
    assert(0u64 & 1 == 0) by (bit_vector);
    assert forall|i: int| 0 <= i < 512 implies match #[trigger] walk::link(mem1, c, i) {
        Some(t) => tables.contains_key(t) && tables[t].level == 3 && tables[t].prefix == i
            && walk::opens(walk::word(mem1, c, i)),
        None => true,
    } by {
        assert(walk::word(mem1, c, i) == walk::word(mem1, c, i));
        if shared_slot(i) {
            assert(walk::entry_ok(mem0, tables, kernel, i));
        }
    }
    assert forall|f: int, i: int|
        tables.contains_key(f) && 0 <= i < 512 implies #[trigger] walk::word(mem1, f, i)
        == walk::word(mem0, f, i) by {
        assert(mm0.is_table(f));
        assert(f != c);
    }
    walk::lemma_new_root(mem0, mem1, tables, c);
    assert forall|f: int| #[trigger] mm1.is_table(f) implies f < mm1.pmm@.total()
        && mm1.pmm@.used[f] by {
        if f != c {
            assert(mm0.is_table(f));
        }
    }
    assert forall|p: int| 0 <= p < walk::page_limit() && !shared_slot(
        walk::slot(p, 4),
    ) implies #[trigger] walk::table_at(mem1, c, p, 3) is None by {
        walk::lemma_slot(p, 4);
        assert(walk::word(mem1, c, walk::slot(p, 4)) == PageTableEntry(0));
        assert(walk::table_at(mem1, c, p, 4) == Some(c));
    }
    assert forall|p: int| 0 <= p < walk::page_limit() implies #[trigger] walk::mapping(mem1, c, p)
        == if shared_slot(walk::slot(p, 4)) {
        walk::mapping(mem0, kernel, p)
    } else {
        None
    } by {
        walk::lemma_slot(p, 4);
        if shared_slot(walk::slot(p, 4)) {
            lemma_shared_walk(mem1, c, kernel, p, 1);
            assert(walk::mapping(mem1, kernel, p) == walk::mapping(mem0, kernel, p));
        } else {
            assert(walk::table_at(mem1, c, p, 3) is None);
            walk::lemma_missing_below(mem1, c, p, 3, 1);
        }
    }
    assert forall|b: int, p: int|
        walk::is_root(mm0.tables(), b) && 0 <= p < walk::page_limit() && !shared_slot(
            walk::slot(p, 4),
        ) implies !#[trigger] walk::shares(mem1, c, b, p) by {
        assert(walk::table_at(mem1, c, p, 3) is None);
        assert forall|l: nat| 1 <= l <= 3 implies #[trigger] walk::table_at(
            mem1,
            c,
            p,
            l,
        ) is None by {
            walk::lemma_missing_below(mem1, c, p, 3, l);
        }
    }
}

/// Two roots with the same top entry for a page have the same way to it.
proof fn lemma_shared_walk(mem: Seq<PageTable>, a: int, b: int, p: int, level: nat)
    requires
        1 <= level <= 3,
        walk::word(mem, a, walk::slot(p, 4)) == walk::word(mem, b, walk::slot(p, 4)),
    ensures
        walk::table_at(mem, a, p, level) == walk::table_at(mem, b, p, level),
    decreases 3 - level,
{
    if level < 3 {
        lemma_shared_walk(mem, a, b, p, level + 1);
    } else {
        assert(walk::table_at(mem, a, p, 4) == Some(a));
        assert(walk::table_at(mem, b, p, 4) == Some(b));
    }
}

impl AddressSpace {
    /// The kernel's own address space.
    pub fn bootstrap(mm: &MemoryManager) -> (r: Self)
        ensures
            r.id == 0,
            r.root_page == mm.root,
            !r.owns_root,
    {
        Self { id: 0, root_page: mm.root, owns_root: false }
    }

    /// Makes an address space with a root of its own, in the first free frame.
    pub fn new(frames: &mut [PageTable], mm: &mut MemoryManager, asids: &mut AsidState) -> (r:
        Result<Self, AddressSpaceError>)
        requires
            old(mm).ready(old(frames)@),
        ensures
            final(mm).ready(final(frames)@),
            final(asids).current == old(asids).current,
            match r {
                Ok(space) => {
                    &&& space.id == old(asids).ids.next
                    &&& final(asids).ids.next == old(asids).ids.after(1)
                    &&& space.owns_root
                    &&& space.root_page.0 > 0
                    &&& final(mm).has_root(space.root_page)
                    &&& space_created(
                        *old(mm),
                        old(frames)@,
                        *final(mm),
                        final(frames)@,
                        space.root_page.0 as int / 4096,
                    )
                },
                Err(e) => {
                    &&& e == AddressSpaceError::RootPageAllocationFailed
                    &&& old(mm).pmm@.free_count() == 0
                    &&& *final(mm) == *old(mm)
                    &&& final(frames)@ == old(frames)@
                    &&& *final(asids) == *old(asids)
                },
            },
    {
        let ghost mm0 = *mm;
        let ghost mem0 = frames@;
        let root_page = match allocate_physical_page(&mut mm.pmm) {
            Some(p) => p,
            None => return Err(AddressSpaceError::RootPageAllocationFailed),
        };
        let id: u64 = asids.ids.take();
        let c: usize = (root_page.addr() / PAGE_SIZE) as usize;
        let kernel: usize = (mm.root.addr() / PAGE_SIZE) as usize;
        proof {
            assert(mm0.is_table(mm0.root.0 as int / 4096));
            assert(!mm0.is_table(c as int));
        }
        frames[c].zero();
        let first = frames[kernel].entries[0];
        let last = frames[kernel].entries[511];
        frames[c].entries[0] = first;
        frames[c].entries[511] = last;
        proof {
            mm.tables = Ghost(mm0.tables().insert(c as int, TableRole { level: 4, prefix: 0 }));
            assert(space_created(mm0, mem0, *mm, frames@, c as int));
            lemma_space_created(mm0, mem0, *mm, frames@, c as int);
        }
        Ok(Self { id, root_page, owns_root: true })
    }

    /// Decides what the processor, whose `CR3` holds `current_cr3`, has to do to
    /// activate the address space, and notes its identifier.
    pub fn activate(&self, current_cr3: u64, asids: &mut AsidState) -> (r: Activation)
        ensures
            final(asids).ids == old(asids).ids,
            if self.root_page.0 == 0 {
                &&& r == Activation::Refused
                &&& final(asids).current == old(asids).current
            } else {
                &&& r == if current_cr3 == self.root_page.0 {
                    Activation::Keep
                } else {
                    Activation::Load(self.root_page.0)
                }
                &&& final(asids).current == self.id
            },
    {
        if self.root_page.addr() == 0 {
            return Activation::Refused;
        }
        asids.current = self.id;
        if current_cr3 != self.root_page.addr() {
            Activation::Load(self.root_page.addr())
        } else {
            Activation::Keep
        }
    }

    /// Maps a page in this address space. Success owes the processor a flush of
    /// what it has cached for this page, where the space is active.
    pub fn map_page(
        &mut self,
        frames: &mut [PageTable],
        mm: &mut MemoryManager,
        virt_addr: VirtAddr,
        phys_addr: PhysPage,
        flags: PageTableFlags,
    ) -> (r: Result<(), AddressSpaceError>)
        requires
            old(mm).wf(old(frames)@),
            old(mm).has_root(old(self).root_page),
        ensures
            *final(self) == *old(self),
            final(mm).wf(final(frames)@),
            match paging::map_refusal(
                old(frames)@,
                old(mm).pmm@.free_count(),
                old(self).root_page,
                virt_addr,
                phys_addr,
            ) {
                None => {
                    &&& r == Ok::<(), AddressSpaceError>(())
                    &&& paging::page_mapped(
                        *old(mm),
                        old(frames)@,
                        *final(mm),
                        final(frames)@,
                        old(self).root_page.0 as int / 4096,
                        walk::page_of(virt_addr.0),
                        crate::vmm::entry_for(phys_addr.0, flags),
                    )
                },
                Some(e) => {
                    &&& r == Err::<(), AddressSpaceError>(AddressSpaceError::MappingFailed(e))
                    &&& if e == MapError::FrameAllocationFailed {
                        paging::tables_ran_out(
                            *old(mm),
                            old(frames)@,
                            *final(mm),
                            final(frames)@,
                            old(self).root_page.0 as int / 4096,
                        )
                    } else {
                        *final(mm) == *old(mm) && final(frames)@ == old(frames)@
                    }
                },
            },
    {
        match paging::map_page(frames, mm, self.root_page, virt_addr, phys_addr, flags) {
            Ok(()) => Ok(()),
            Err(e) => Err(AddressSpaceError::MappingFailed(e)),
        }
    }

    /// Unmaps a page in this address space and says what it was mapped to. Success
    /// owes the processor a flush of what it has cached for this page, where the
    /// space is active.
    pub fn unmap_page(
        &mut self,
        frames: &mut [PageTable],
        mm: &MemoryManager,
        virt_addr: VirtAddr,
    ) -> (r: Result<PhysPage, AddressSpaceError>)
        requires
            mm.wf(old(frames)@),
            mm.has_root(old(self).root_page),
        ensures
            *final(self) == *old(self),
            mm.wf(final(frames)@),
            match paging::unmap_refusal(old(frames)@, old(self).root_page, virt_addr) {
                Some(e) => {
                    &&& r == Err::<PhysPage, AddressSpaceError>(
                        AddressSpaceError::UnmappingFailed(e),
                    )
                    &&& final(frames)@ == old(frames)@
                },
                None => {
                    let root = old(self).root_page.0 as int / 4096;
                    let page = walk::page_of(virt_addr.0);
                    &&& r == Ok::<PhysPage, AddressSpaceError>(
                        PhysPage((walk::mapping(old(frames)@, root, page)->0).target()),
                    )
                    &&& paging::pages_unmapped(
                        *mm,
                        old(frames)@,
                        final(frames)@,
                        root,
                        page,
                        page + 1,
                    )
                },
            },
    {
        match paging::unmap_page(frames, mm, self.root_page, virt_addr) {
            Ok(page) => Ok(page),
            Err(e) => Err(AddressSpaceError::UnmappingFailed(e)),
        }
    }

    /// The physical address and the flags that `virt_addr` translates to in this
    /// address space.
    pub fn translate(&self, frames: &[PageTable], mm: &MemoryManager, virt_addr: VirtAddr) -> (r:
        Option<(PhysPage, PageTableFlags)>)
        requires
            mm.wf(frames@),
            mm.has_root(self.root_page),
        ensures
            r == paging::translation(frames@, self.root_page, virt_addr),
    {
        paging::translate(frames, mm, self.root_page, virt_addr)
    }

    /// The address space has a root of its own to give back.
    pub open spec fn has_own_root(self) -> bool {
        self.owns_root && self.root_page.0 != 0
    }

    /// Gives the root back, if it is the address space's own. The tables below
    /// it stay.
    pub fn destroy(&mut self, frames: &[PageTable], mm: &mut MemoryManager)
        requires
            old(mm).ready(frames@),
            old(self).has_own_root() ==> old(mm).has_root(old(self).root_page)
                && old(self).root_page != old(mm).root,
        ensures
            final(mm).ready(frames@),
            final(mm).vmm == old(mm).vmm,
            final(mm).root == old(mm).root,
            final(self).id == old(self).id,
            if old(self).has_own_root() {
                &&& final(self).root_page == PhysPage(0)
                &&& !final(self).owns_root
                &&& final(mm).tables() == old(mm).tables().remove(
                    old(self).root_page.0 as int / 4096,
                )
                &&& final(mm).pmm@ == old(mm).pmm@.after_free(old(self).root_page)
                &&& old(mm).pmm@.refusal(old(self).root_page) is None
            } else {
                *final(self) == *old(self) && *final(mm) == *old(mm)
            },
    {
        if self.owns_root && self.root_page.addr() != 0 {
            let ghost mm0 = *mm;
            let ghost c = self.root_page.0 as int / 4096;
            proof {
                assert(mm0.is_table(c));
                assert(mm0.is_table(mm0.root.0 as int / 4096));
                walk::lemma_drop_root(frames@, mm0.tables(), c);
            }
            let _ = free_physical_page(&mut mm.pmm, self.root_page);
            proof {
                mm.tables = Ghost(mm0.tables().remove(c));
                assert forall|f: int| #[trigger] mm.is_table(f) implies f < mm.pmm@.total()
                    && mm.pmm@.used[f] by {
                    assert(mm0.is_table(f));
                }
            }
            self.root_page = PhysPage::null();
            self.owns_root = false;
        }
    }
}

/// Mapping a page in one address space changes no mapping and no table of another
/// that shares no table on the way to it.
pub proof fn lemma_spaces_isolated(
    mm0: MemoryManager,
    mem0: Seq<PageTable>,
    mm1: MemoryManager,
    mem1: Seq<PageTable>,
    a: int,
    b: int,
    page: int,
    entry: PageTableEntry,
    q: int,
)
    requires
        walk::is_root(mm0.tables(), a),
        walk::is_root(mm0.tables(), b),
        a != b,
        0 <= page < walk::page_limit(),
        0 <= q < walk::page_limit(),
        !walk::shares(mem0, a, b, page),
        paging::page_mapped(mm0, mem0, mm1, mem1, a, page, entry),
    ensures
        walk::mapping(mem1, b, q) == walk::mapping(mem0, b, q),
        !walk::shares(mem1, a, b, page),
        forall|l: nat|
            1 <= l <= 4 ==> #[trigger] walk::table_at(mem1, b, q, l) == walk::table_at(
                mem0,
                b,
                q,
                l,
            ),
{
    reveal(paging::apart_kept);
    assert(!walk::shares(mem1, a, b, page));
    if q == page {
        assert(walk::table_at(mem1, a, page, 1) is Some);
        assert(walk::table_at(mem1, a, page, 1) != walk::table_at(mem1, b, page, 1));
    }
}

/// Where the self-test maps its pages.
pub const SELF_TEST_ADDR: u64 = 0x0000_2000_1000_0000;

/// Sharing is mutual.
proof fn lemma_shares_both_ways(mem: Seq<PageTable>, a: int, b: int, p: int)
    requires
        walk::shares(mem, a, b, p),
    ensures
        walk::shares(mem, b, a, p),
{
    let l = choose|l: nat|
        1 <= l <= 3 && #[trigger] walk::table_at(mem, a, p, l) is Some && walk::table_at(
            mem,
            a,
            p,
            l,
        ) == walk::table_at(mem, b, p, l);
    assert(walk::table_at(mem, b, p, l) is Some);
}

/// Two fresh roots and two fresh frames, as the self-test makes them.
struct TestSpaces {
    a: AddressSpace,
    b: AddressSpace,
    frame_a: PhysPage,
    frame_b: PhysPage,
}

/// The frame is in use and is no table.
spec fn data_frame(mm: MemoryManager, page: PhysPage) -> bool {
    let f = page.0 as int / 4096;
    &&& page.0 == 4096 * f
    &&& 0 < f < mm.pmm@.total()
    &&& mm.pmm@.used[f]
    &&& !mm.is_table(f)
}

/// The two spaces have roots of their own, share no table on the way to the
/// test's page, and the frames are two frames in use.
spec fn test_ready(t: TestSpaces, mm: MemoryManager, mem: Seq<PageTable>) -> bool {
    let page = walk::page_of(SELF_TEST_ADDR);
    let a = t.a.root_page.0 as int / 4096;
    let b = t.b.root_page.0 as int / 4096;
    &&& mm.ready(mem)
    &&& mm.has_root(t.a.root_page)
    &&& mm.has_root(t.b.root_page)
    &&& t.a.has_own_root()
    &&& t.b.has_own_root()
    &&& t.a.root_page != mm.root
    &&& t.b.root_page != mm.root
    &&& a != b
    &&& !walk::shares(mem, a, b, page)
    &&& !walk::shares(mem, b, a, page)
    &&& data_frame(mm, t.frame_a)
    &&& data_frame(mm, t.frame_b)
    &&& t.frame_a != t.frame_b
}

/// All but what the self-test made is as it was, and the two spaces share no table
/// on the way to the test's page with those of then.
#[verifier::opaque]
spec fn test_since(since: Since, t: TestSpaces, mm: MemoryManager, mem: Seq<PageTable>) -> bool {
    let page = walk::page_of(SELF_TEST_ADDR);
    let a = t.a.root_page.0 as int / 4096;
    let b = t.b.root_page.0 as int / 4096;
    &&& since.mm.ready(since.mem)
    &&& since.holds(mm, mem)
    &&& since.lo == 0
    &&& since.hi == 0
    &&& kept::apart_from(since.mm, mem, a, page)
    &&& kept::apart_from(since.mm, mem, b, page)
    &&& since.mm.pmm@.is_free(t.frame_a.0 as int / 4096)
    &&& since.mm.pmm@.is_free(t.frame_b.0 as int / 4096)
    &&& since.mm.pmm@.is_free(a)
    &&& since.mm.pmm@.is_free(b)
}

/// The state before the self-test.
spec fn at_first(mm: MemoryManager, mem: Seq<PageTable>) -> Since {
    Since { mm, mem, lo: 0, hi: 0, ours: Set::empty() }
}

/// The state before the self-test, whose data frames are `t`'s.
spec fn with_frames(mm: MemoryManager, mem: Seq<PageTable>, t: TestSpaces) -> Since {
    Since {
        mm,
        mem,
        lo: 0,
        hi: 0,
        ours: Set::empty().insert(t.frame_a.0 as int / 4096).insert(t.frame_b.0 as int / 4096),
    }
}

/// All is as it was but for frames that were free.
pub open spec fn kept_but_free(
    mm0: MemoryManager,
    mem0: Seq<PageTable>,
    mm1: MemoryManager,
    mem1: Seq<PageTable>,
) -> bool {
    kept::kept(mm0, mem0, mm1, mem1, 0, 0, kept::free_frames(mm0))
}

/// Makes what the self-test works on.
fn test_spaces(frames: &mut [PageTable], mm: &mut MemoryManager, asids: &mut AsidState) -> (r:
    Result<TestSpaces, &'static str>)
    requires
        old(mm).ready(old(frames)@),
    ensures
        final(mm).ready(final(frames)@),
        final(mm).root == old(mm).root,
        final(mm).vmm == old(mm).vmm,
        r is Ok <==> old(mm).pmm@.free_count() >= 4,
        final(asids).current == old(asids).current,
        final(asids).ids.next == old(asids).ids.after(
            if old(mm).pmm@.free_count() < 2 {
                old(mm).pmm@.free_count()
            } else {
                2
            },
        ),
        r is Err ==> final(mm).pmm@.free_count() == 0,
        old(mm).pmm@.free_count() == 0 ==> r == Err::<TestSpaces, &'static str>(
            "Failed to create AddressSpace A",
        ),
        old(mm).pmm@.free_count() == 1 ==> r == Err::<TestSpaces, &'static str>(
            "Failed to create AddressSpace B",
        ),
        old(mm).pmm@.free_count() == 2 ==> r == Err::<TestSpaces, &'static str>("failed frame A"),
        old(mm).pmm@.free_count() == 3 ==> r == Err::<TestSpaces, &'static str>("failed frame B"),
        kept_but_free(*old(mm), old(frames)@, *final(mm), final(frames)@),
        r matches Ok(t) ==> {
            let page = walk::page_of(SELF_TEST_ADDR);
            &&& test_since(
                with_frames(*old(mm), old(frames)@, t),
                t,
                *final(mm),
                final(frames)@,
            )
            &&& test_ready(t, *final(mm), final(frames)@)
            &&& t.a.id == old(asids).ids.next
            &&& t.b.id == old(asids).ids.after(1)
            &&& walk::table_at(final(frames)@, t.a.root_page.0 as int / 4096, page, 3) is None
            &&& walk::table_at(final(frames)@, t.b.root_page.0 as int / 4096, page, 3) is None
            &&& final(mm).pmm@.free_count() == old(mm).pmm@.free_count() - 4
            &&& walk::mapping(final(frames)@, t.a.root_page.0 as int / 4096, page) is None
            &&& walk::mapping(final(frames)@, t.b.root_page.0 as int / 4096, page) is None
        },
{
    let ghost mm0 = *mm;
    let ghost mem0 = frames@;
    let ghost page = walk::page_of(SELF_TEST_ADDR);
    let ghost since = at_first(mm0, mem0);
    let ghost all = kept::free_frames(mm0);
    proof {
        kept::lemma_kept_first(since);
        kept::lemma_kept_wider(since, mm0, mem0, all);
    }
    let space_a = match AddressSpace::new(frames, mm, asids) {
        Ok(space) => space,
        Err(_) => return Err("Failed to create AddressSpace A"),
    };
    let ghost mm1 = *mm;
    let ghost mem1 = frames@;
    let ghost a = space_a.root_page.0 as int / 4096;
    proof {
        assert(walk::slot(page, 4) == 64);
        kept::lemma_kept_space(since, mm0, mem0, mm1, mem1, a);
        kept::lemma_space_apart(since, mm0, mem0, mm1, mem1, a, page);
        kept::lemma_kept_wider(since, mm1, mem1, all);
    }
    let space_b = match AddressSpace::new(frames, mm, asids) {
        Ok(space) => space,
        Err(_) => return Err("Failed to create AddressSpace B"),
    };
    let ghost mm2 = *mm;
    let ghost mem2 = frames@;
    let ghost b = space_b.root_page.0 as int / 4096;
    proof {
        assert(mm1.is_table(a));
        kept::lemma_kept_space(since, mm1, mem1, mm2, mem2, b);
        kept::lemma_space_apart(since, mm1, mem1, mm2, mem2, b, page);
        kept::lemma_kept_wider(since, mm2, mem2, all);
    }
    proof {
        assert(mm0.is_table(mm0.root.0 as int / 4096));
        assert(page == 0x2_0001_0000);
        assert(walk::slot(page, 4) == 64);
        lemma_space_created(mm0, mem0, mm1, mem1, a);
        lemma_space_created(mm1, mem1, mm2, mem2, b);
        assert(walk::mapping(mem1, a, page) is None);
        assert(walk::mapping(mem2, a, page) is None);
        assert(walk::mapping(mem2, b, page) is None);
        assert(!walk::shares(mem2, b, a, page));
        if walk::shares(mem2, a, b, page) {
            lemma_shares_both_ways(mem2, a, b, page);
        }
        assert(mm1.is_table(a));
        assert(mm2.is_table(a));
        assert(mm2.is_table(b));
        assert(mm1.is_table(mm0.root.0 as int / 4096));
    }
    let frame_a = match allocate_physical_page(&mut mm.pmm) {
        Some(frame) => frame,
        None => {
            return Err("failed frame A")
        },
    };
    let ghost mm3 = *mm;
    proof {
        assert forall|f: int| #[trigger] mm3.is_table(f) implies f < mm3.pmm@.total()
            && mm3.pmm@.used[f] by {
            assert(mm2.is_table(f));
        }
        assert(!mm2.is_table(frame_a.0 as int / 4096));
        kept::lemma_kept_taken(since, mm2, mem2, mm3, frame_a.0 as int / 4096);
        kept::lemma_kept_wider(
            Since { ours: since.ours.insert(frame_a.0 as int / 4096), ..since },
            mm3,
            mem2,
            all,
        );
    }
    let frame_b = match allocate_physical_page(&mut mm.pmm) {
        Some(frame) => frame,
        None => {
            return Err("failed frame B")
        },
    };
    proof {
        assert forall|f: int| #[trigger] mm.is_table(f) implies f < mm.pmm@.total()
            && mm.pmm@.used[f] by {
            assert(mm3.is_table(f));
        }
        assert(!mm3.is_table(frame_b.0 as int / 4096));
        assert(mm3.pmm@.used[frame_a.0 as int / 4096]);
    }
    let t = TestSpaces { a: space_a, b: space_b, frame_a, frame_b };
    proof {
        let first = Since { ours: since.ours.insert(frame_a.0 as int / 4096), ..since };
        kept::lemma_kept_taken(first, mm3, mem2, *mm, frame_b.0 as int / 4096);
        assert((Since { ours: first.ours.insert(frame_b.0 as int / 4096), ..first })
            == with_frames(mm0, mem0, t));
        kept::lemma_kept_wider(with_frames(mm0, mem0, t), *mm, mem2, all);
        assert(test_since(with_frames(mm0, mem0, t), t, *mm, mem2)) by {
            reveal(test_since);
        }
    }
    Ok(t)
}

/// Growing keeps the spaces of the self-test apart.
proof fn lemma_test_grown(
    t: TestSpaces,
    mm0: MemoryManager,
    mem0: Seq<PageTable>,
    mm1: MemoryManager,
    mem1: Seq<PageTable>,
)
    requires
        test_ready(t, mm0, mem0),
        mm1.wf(mem1),
        paging::grown(mm0, mem0, mm1, mem1),
    ensures
        test_ready(t, mm1, mem1),
{
    let a = t.a.root_page.0 as int / 4096;
    let b = t.b.root_page.0 as int / 4096;
    let fa = t.frame_a.0 as int / 4096;
    let fb = t.frame_b.0 as int / 4096;
    assert(mm0.is_table(mm0.root.0 as int / 4096));
    assert(mm0.is_table(a));
    assert(mm0.is_table(b));
    assert(mm1.pmm@.used[fa] && mm1.pmm@.used[fb]);
    assert(!mm1.is_table(fa) && !mm1.is_table(fb));
}

/// Mapping the test's page in one of the spaces leaves all else.
proof fn lemma_test_mapped(
    since: Since,
    t: TestSpaces,
    mm0: MemoryManager,
    mem0: Seq<PageTable>,
    mm1: MemoryManager,
    mem1: Seq<PageTable>,
    x: int,
    entry: PageTableEntry,
)
    requires
        test_ready(t, mm0, mem0),
        test_since(since, t, mm0, mem0),
        x == t.a.root_page.0 as int / 4096 || x == t.b.root_page.0 as int / 4096,
        paging::page_mapped(mm0, mem0, mm1, mem1, x, walk::page_of(SELF_TEST_ADDR), entry),
    ensures
        test_since(since, t, mm1, mem1),
{
    reveal(test_since);
    let page = walk::page_of(SELF_TEST_ADDR);
    let a = t.a.root_page.0 as int / 4096;
    let b = t.b.root_page.0 as int / 4096;
    assert(mm0.is_table(a) && mm0.is_table(b));
    assert(0 <= page < walk::page_limit());
    kept::lemma_kept_page(since, mm0, mem0, mm1, mem1, x, page, entry);
    kept::lemma_apart_grown(since, mm0, mem0, mem1, a, page);
    kept::lemma_apart_grown(since, mm0, mem0, mem1, b, page);
}

/// A failed attempt to map leaves all else.
proof fn lemma_test_failed(
    since: Since,
    t: TestSpaces,
    mm0: MemoryManager,
    mem0: Seq<PageTable>,
    mm1: MemoryManager,
    mem1: Seq<PageTable>,
)
    requires
        test_ready(t, mm0, mem0),
        test_since(since, t, mm0, mem0),
        since == with_frames(since.mm, since.mem, t),
        paging::grown(mm0, mem0, mm1, mem1),
        walk::same_mappings(mem0, mem1, mm0.tables()),
    ensures
        kept_but_free(since.mm, since.mem, mm1, mem1),
{
    reveal(test_since);
    kept::lemma_kept_tables(since, mm0, mem0, mm1, mem1);
    kept::lemma_kept_wider(since, mm1, mem1, kept::free_frames(since.mm));
}

/// Writing to data frames keeps the spaces of the self-test apart.
proof fn lemma_test_written(
    t: TestSpaces,
    mm: MemoryManager,
    mem0: Seq<PageTable>,
    mem1: Seq<PageTable>,
)
    requires
        test_ready(t, mm, mem0),
        mm.wf(mem1),
        mem1.len() == mem0.len(),
        forall|f: int| mm.is_table(f) ==> #[trigger] mem1[f] == mem0[f],
    ensures
        test_ready(t, mm, mem1),
{
    assert forall|f: int, i: int|
        mm.tables().contains_key(f) && 0 <= i < 512 implies #[trigger] walk::word(mem1, f, i)
        == walk::word(mem0, f, i) by {
        assert(mm.is_table(f));
    }
    walk::lemma_data_change(mem0, mem1, mm.tables());
    let a = t.a.root_page.0 as int / 4096;
    let b = t.b.root_page.0 as int / 4096;
    let page = walk::page_of(SELF_TEST_ADDR);
    assert(0 <= page < walk::page_limit());
    assert forall|l: nat| 1 <= l <= 3 implies #[trigger] walk::table_at(mem1, a, page, l)
        == walk::table_at(mem0, a, page, l) && walk::table_at(mem1, b, page, l)
        == walk::table_at(mem0, b, page, l) by {
        assert(walk::table_at(mem1, b, page, l) == walk::table_at(mem0, b, page, l));
    }
    if walk::shares(mem1, a, b, page) {
        let l = choose|l: nat|
            1 <= l <= 3 && #[trigger] walk::table_at(mem1, a, page, l) is Some && walk::table_at(
                mem1,
                a,
                page,
                l,
            ) == walk::table_at(mem1, b, page, l);
        assert(walk::table_at(mem0, a, page, l) is Some);
        assert(walk::shares(mem0, a, b, page));
    }
    if walk::shares(mem1, b, a, page) {
        lemma_shares_both_ways(mem1, b, a, page);
    }
}

/// Writing to one of the data frames leaves all else.
proof fn lemma_test_poked(
    since: Since,
    t: TestSpaces,
    mm: MemoryManager,
    mem0: Seq<PageTable>,
    mem1: Seq<PageTable>,
    f: int,
)
    requires
        test_ready(t, mm, mem0),
        test_since(since, t, mm, mem0),
        f == t.frame_a.0 as int / 4096 || f == t.frame_b.0 as int / 4096,
        mm.wf(mem1),
        mem1.len() == mem0.len(),
        walk::same_mappings(mem0, mem1, mm.tables()),
        forall|g: int| mm.is_table(g) ==> #[trigger] mem1[g] == mem0[g],
        forall|g: int, i: int|
            0 <= g < mem0.len() && 0 <= i < 512 && g != f ==> #[trigger] walk::word(mem1, g, i)
                == walk::word(mem0, g, i),
    ensures
        test_since(since, t, mm, mem1),
{
    reveal(test_since);
    let page = walk::page_of(SELF_TEST_ADDR);
    let a = t.a.root_page.0 as int / 4096;
    let b = t.b.root_page.0 as int / 4096;
    assert(mm.is_table(a) && mm.is_table(b));
    assert(0 <= page < walk::page_limit());
    assert forall|g: int| 0 <= g < mem0.len() && g != f implies #[trigger] mem1[g] == mem0[g] by {
        assert forall|i: int| 0 <= i < 512 implies mem1[g].entries@[i] == mem0[g].entries@[i] by {
            assert(walk::word(mem1, g, i) == walk::word(mem0, g, i));
        }
        assert(mem1[g].entries@ =~= mem0[g].entries@);
        assert(mem1[g].entries == mem0[g].entries);
    }
    assert forall|g: int, i: int|
        mm.tables().contains_key(g) && 0 <= i < 512 implies #[trigger] walk::word(mem1, g, i)
        == walk::word(mem0, g, i) by {
        assert(mm.is_table(g));
    }
    walk::lemma_data_change(mem0, mem1, mm.tables());
    kept::lemma_kept_poke(since, mm, mem0, mem1, f);
    assert forall|r: int| #[trigger] walk::is_root(since.mm.tables(), r) implies walk::is_root(
        mm.tables(),
        r,
    ) by {
        reveal(kept::kept);
        assert(since.mm.is_table(r));
    }
    kept::lemma_apart_same(since.mm, mm, mem0, mem1, a, page);
    kept::lemma_apart_same(since.mm, mm, mem0, mem1, b, page);
}

/// The test's page is mapped to `frame` under the root of `space`.
spec fn test_maps(space: AddressSpace, frame: PhysPage, mem: Seq<PageTable>) -> bool {
    walk::mapping(mem, space.root_page.0 as int / 4096, walk::page_of(SELF_TEST_ADDR)) == Some(
        crate::vmm::entry_for(frame.0, PageTableFlags(3)),
    )
}

/// The test's page leads to `frame`.
proof fn lemma_test_frame(
    space: AddressSpace,
    frame: PhysPage,
    mm: MemoryManager,
    mem: Seq<PageTable>,
)
    requires
        mm.wf(mem),
        data_frame(mm, frame),
        test_maps(space, frame, mem),
    ensures
        ({
            let r = space.root_page.0 as int / 4096;
            let page = walk::page_of(SELF_TEST_ADDR);
            &&& (walk::mapping(mem, r, page)->0).target() == frame.0
            &&& paging::frame_of(mem, r, page) == frame.0 as int / 4096
            &&& paging::is_data(mm, mem, r, page)
        }),
{
    assert(3u64 & 0x000F_FFFF_FFFF_F000 == 0) by (bit_vector);
    crate::vmm::lemma_entry_round_trip(frame.0, PageTableFlags(3));
}

/// Activates `space` and checks what the test's page translates to.
fn test_activate(
    frames: &[PageTable],
    mm: &MemoryManager,
    asids: &mut AsidState,
    cr3: u64,
    space: &AddressSpace,
    frame: PhysPage,
) -> (r: Option<u64>)
    requires
        mm.wf(frames@),
        mm.has_root(space.root_page),
        space.root_page.0 != 0,
        data_frame(*mm, frame),
        test_maps(*space, frame, frames@),
    ensures
        r == Some(space.root_page.0),
        final(asids).current == space.id,
        final(asids).ids == old(asids).ids,
{
    let now: u64 = match space.activate(cr3, asids) {
        Activation::Load(root) => root,
        _ => cr3,
    };
    proof {
        lemma_test_frame(*space, frame, *mm, frames@);
        assert(crate::vmm::canonical(SELF_TEST_ADDR));
    }
    match space.translate(frames, mm, VirtAddr::new(SELF_TEST_ADDR)) {
        Some((phys, _)) => {
            if phys.addr() == frame.addr() {
                Some(now)
            } else {
                None
            }
        },
        None => None,
    }
}

/// Writes `value` to the test's page under the root in `cr3`.
fn test_write(
    frames: &mut [PageTable],
    mm: &MemoryManager,
    t: &TestSpaces,
    space: &AddressSpace,
    frame: PhysPage,
    value: u64,
    Ghost(since): Ghost<Since>,
)
    requires
        test_ready(*t, *mm, old(frames)@),
        test_since(since, *t, *mm, old(frames)@),
        frame == t.frame_a || frame == t.frame_b,
        mm.has_root(space.root_page),
        data_frame(*mm, frame),
        test_maps(*space, frame, old(frames)@),
        test_maps(t.a, t.frame_a, old(frames)@),
        test_maps(t.b, t.frame_b, old(frames)@),
    ensures
        test_ready(*t, *mm, final(frames)@),
        test_since(since, *t, *mm, final(frames)@),
        test_maps(t.a, t.frame_a, final(frames)@),
        test_maps(t.b, t.frame_b, final(frames)@),
        walk::word(final(frames)@, frame.0 as int / 4096, 0).0 == value,
        forall|f: int|
            0 <= f < old(frames)@.len() && f != frame.0 as int / 4096 ==> #[trigger] walk::word(
                final(frames)@,
                f,
                0,
            ) == walk::word(old(frames)@, f, 0),
{
    let ghost mem0 = frames@;
    proof {
        lemma_test_frame(*space, frame, *mm, mem0);
        assert(crate::vmm::canonical(SELF_TEST_ADDR));
        assert(0 <= walk::page_of(SELF_TEST_ADDR) < walk::page_limit());
    }
    write_word(frames, mm, space.root_page, VirtAddr::new(SELF_TEST_ADDR), value);
    proof {
        lemma_test_poked(since, *t, *mm, mem0, frames@, frame.0 as int / 4096);
        lemma_test_written(*t, *mm, mem0, frames@);
        let a = t.a.root_page.0 as int / 4096;
        let b = t.b.root_page.0 as int / 4096;
        let page = walk::page_of(SELF_TEST_ADDR);
        assert(walk::mapping(frames@, a, page) == walk::mapping(mem0, a, page));
        assert(walk::mapping(frames@, b, page) == walk::mapping(mem0, b, page));
    }
}

/// Reads the test's page under the root of `space`.
fn test_read(
    frames: &[PageTable],
    mm: &MemoryManager,
    space: &AddressSpace,
    frame: PhysPage,
) -> (r: u64)
    requires
        mm.wf(frames@),
        mm.has_root(space.root_page),
        data_frame(*mm, frame),
        test_maps(*space, frame, frames@),
    ensures
        r == walk::word(frames@, frame.0 as int / 4096, 0).0,
{
    proof {
        lemma_test_frame(*space, frame, *mm, frames@);
        assert(crate::vmm::canonical(SELF_TEST_ADDR));
    }
    read_word(frames, mm, space.root_page, VirtAddr::new(SELF_TEST_ADDR))
}

/// Gives back what the self-test made.
fn test_clean_up(
    frames: &mut [PageTable],
    mm: &mut MemoryManager,
    t: TestSpaces,
    Ghost(since): Ghost<Since>,
)
    requires
        test_ready(t, *old(mm), old(frames)@),
        test_since(since, t, *old(mm), old(frames)@),
        since == with_frames(since.mm, since.mem, t),
        test_maps(t.a, t.frame_a, old(frames)@),
        test_maps(t.b, t.frame_b, old(frames)@),
    ensures
        kept::unchanged(since.mm, since.mem, *final(mm), final(frames)@),
        final(mm).ready(final(frames)@),
        final(mm).root == old(mm).root,
        final(mm).vmm == old(mm).vmm,
        final(mm).pmm@ == old(mm).pmm@.after_free(t.frame_a).after_free(t.frame_b).after_free(
            t.a.root_page,
        ).after_free(t.b.root_page),
        final(mm).tables() == old(mm).tables().remove(t.a.root_page.0 as int / 4096).remove(
            t.b.root_page.0 as int / 4096,
        ),
        final(mm).pmm@.free_count() == old(mm).pmm@.free_count() + 4,
{
    let ghost mm0 = *mm;
    let ghost mem0 = frames@;
    let ghost fa = t.frame_a.0 as int / 4096;
    let ghost fb = t.frame_b.0 as int / 4096;
    let ghost a = t.a.root_page.0 as int / 4096;
    let ghost b = t.b.root_page.0 as int / 4096;
    let mut space_a = t.a;
    let mut space_b = t.b;
    proof {
        reveal(test_since);
        assert(crate::vmm::canonical(SELF_TEST_ADDR));
        assert(0 <= walk::page_of(SELF_TEST_ADDR) < walk::page_limit());
        assert(mm0.is_table(a) && mm0.is_table(b));
    }
    let _ = space_a.unmap_page(frames, mm, VirtAddr::new(SELF_TEST_ADDR));
    let ghost mem1 = frames@;
    proof {
        lemma_test_unmapped(since, t, mm0, mem0, mem1);
    }
    let _ = space_b.unmap_page(frames, mm, VirtAddr::new(SELF_TEST_ADDR));
    proof {
        kept::lemma_kept_unpage(since, mm0, mem1, frames@, b, walk::page_of(SELF_TEST_ADDR));
    }
    let _ = free_physical_page(&mut mm.pmm, t.frame_a);
    let ghost mm1 = *mm;
    let _ = free_physical_page(&mut mm.pmm, t.frame_b);
    let ghost mm2 = *mm;
    proof {
        assert forall|f: int| #[trigger] mm1.is_table(f) implies f < mm1.pmm@.total()
            && mm1.pmm@.used[f] by {
            assert(mm0.is_table(f));
        }
        assert forall|f: int| #[trigger] mm2.is_table(f) implies f < mm2.pmm@.total()
            && mm2.pmm@.used[f] by {
            assert(mm0.is_table(f));
        }
        assert(mm0.is_table(mm0.root.0 as int / 4096));
        assert(mm1.tables() =~= mm0.tables().remove(fa));
        assert(mm2.tables() =~= mm1.tables().remove(fb));
        kept::lemma_kept_given(since, mm0, frames@, mm1, fa);
        kept::lemma_kept_given(
            Since { ours: since.ours.remove(fa), ..since },
            mm1,
            frames@,
            mm2,
            fb,
        );
    }
    let ghost last = Since { ours: since.ours.remove(fa).remove(fb), ..since };
    space_a.destroy(frames, mm);
    let ghost mm3 = *mm;
    space_b.destroy(frames, mm);
    proof {
        crate::pmm::lemma_give(mm2.pmm@, t.a.root_page);
        crate::pmm::lemma_give(mm3.pmm@, t.b.root_page);
        assert(last.ours.remove(a).remove(b) =~= Set::empty());
        kept::lemma_kept_given(last, mm2, frames@, mm3, a);
        kept::lemma_kept_given(
            Since { ours: last.ours.remove(a), ..last },
            mm3,
            frames@,
            *mm,
            b,
        );
    }
}

/// Unmapping the test's page in the first space leaves the second.
proof fn lemma_test_unmapped(
    since: Since,
    t: TestSpaces,
    mm: MemoryManager,
    mem0: Seq<PageTable>,
    mem1: Seq<PageTable>,
)
    requires
        test_ready(t, mm, mem0),
        test_since(since, t, mm, mem0),
        test_maps(t.a, t.frame_a, mem0),
        test_maps(t.b, t.frame_b, mem0),
        mm.wf(mem1),
        paging::pages_unmapped(
            mm,
            mem0,
            mem1,
            t.a.root_page.0 as int / 4096,
            walk::page_of(SELF_TEST_ADDR),
            walk::page_of(SELF_TEST_ADDR) + 1,
        ),
    ensures
        since.holds(mm, mem1),
        kept::apart_from(
            since.mm,
            mem1,
            t.b.root_page.0 as int / 4096,
            walk::page_of(SELF_TEST_ADDR),
        ),
        test_maps(t.b, t.frame_b, mem1),
{
    reveal(test_since);
    let page = walk::page_of(SELF_TEST_ADDR);
    let a = t.a.root_page.0 as int / 4096;
    let b = t.b.root_page.0 as int / 4096;
    assert(mm.is_table(a) && mm.is_table(b));
    assert(0 <= page < walk::page_limit());
    kept::lemma_kept_unpage(since, mm, mem0, mem1, a, page);
    assert forall|r: int| #[trigger] walk::is_root(since.mm.tables(), r) implies walk::is_root(
        mm.tables(),
        r,
    ) by {
        reveal(kept::kept);
        assert(since.mm.is_table(r));
    }
    kept::lemma_apart_same(since.mm, mm, mem0, mem1, b, page);
    assert(walk::table_at(mem0, a, page, 1) is Some);
    assert(walk::table_at(mem0, a, page, 1) != walk::table_at(mem0, b, page, 1));
    assert(walk::mapping(mem1, b, page) == walk::mapping(mem0, b, page));
}

/// Checks address spaces on themselves: identifiers and roots of their own, and
/// one virtual address that leads to different frames in two of them. It passes
/// where ten frames are free, and leaves six of them in use: those of the tables
/// below the two roots.
pub fn run_self_tests(frames: &mut [PageTable], mm: &mut MemoryManager, asids: &mut AsidState) -> (r:
    Result<(), &'static str>)
    requires
        old(mm).ready(old(frames)@),
    ensures
        final(mm).ready(final(frames)@),
        kept_but_free(*old(mm), old(frames)@, *final(mm), final(frames)@),
        old(mm).pmm@.free_count() >= 10 ==> r is Ok,
        final(asids).ids.next == old(asids).ids.after(
            if old(mm).pmm@.free_count() < 2 {
                old(mm).pmm@.free_count()
            } else {
                2
            },
        ),
        final(mm).root == old(mm).root,
        final(mm).vmm@ == old(mm).vmm@,
        final(mm).vmm.next_dynamic_addr == old(mm).vmm.next_dynamic_addr,
        r is Err ==> {
            &&& final(asids).current == old(asids).current
            &&& final(mm).pmm@.free_count() == 0
        },
        r is Ok ==> {
            &&& kept::unchanged(*old(mm), old(frames)@, *final(mm), final(frames)@)
            &&& final(asids).current == 0
            &&& final(asids).ids.next == old(asids).ids.after(2)
            &&& final(mm).pmm@.free_count() == old(mm).pmm@.free_count() - 6
        },
        old(mm).pmm@.free_count() == 0 ==> r == Err::<(), &'static str>(
            "Failed to create AddressSpace A",
        ),
        old(mm).pmm@.free_count() == 1 ==> r == Err::<(), &'static str>(
            "Failed to create AddressSpace B",
        ),
        old(mm).pmm@.free_count() == 2 ==> r == Err::<(), &'static str>("failed frame A"),
        old(mm).pmm@.free_count() == 3 ==> r == Err::<(), &'static str>("failed frame B"),
        4 <= old(mm).pmm@.free_count() <= 6 ==> r == Err::<(), &'static str>("map AS A failed"),
        7 <= old(mm).pmm@.free_count() <= 9 ==> r == Err::<(), &'static str>("map AS B failed"),
{
    let ghost root0 = mm.root;
    let ghost page = walk::page_of(SELF_TEST_ADDR);
    let ghost source = asids.ids;
    let mut t = match test_spaces(frames, mm, asids) {
        Ok(t) => t,
        Err(message) => return Err(message),
    };
    let ghost since = with_frames(*old(mm), old(frames)@, t);
    let ghost a = t.a.root_page.0 as int / 4096;
    let ghost b = t.b.root_page.0 as int / 4096;
    proof {
        crate::ids::lemma_ids_differ(source, 0, 1);
        assert(0 <= page < walk::page_limit());
        assert(SELF_TEST_ADDR % 4096 == 0 && crate::vmm::canonical(SELF_TEST_ADDR));
        assert(1u64 | 2 == 3) by (bit_vector);
        assert(3u64 & 1 == 1) by (bit_vector);
        crate::vmm::lemma_entry_maps(t.frame_a.0, PageTableFlags(3));
        crate::vmm::lemma_entry_maps(t.frame_b.0, PageTableFlags(3));
        assert(t.frame_a.0 % 4096 == 0 && t.frame_b.0 % 4096 == 0);
    }
    if t.a.id == t.b.id || t.a.root_page.addr() == t.b.root_page.addr() {
        return Err("Address spaces share identical IDs or root PML4s!");
    }
    let test_va = VirtAddr::new(SELF_TEST_ADDR);
    let flags = PageTableFlags::present() | PageTableFlags::writable();
    let ghost mm1 = *mm;
    let ghost mem1 = frames@;
    assert(mm1.is_table(mm1.root.0 as int / 4096));
    if t.a.map_page(frames, mm, test_va, t.frame_a, flags).is_err() {
        proof {
            lemma_test_failed(since, t, mm1, mem1, *mm, frames@);
        }
        return Err("map AS A failed");
    }
    let ghost mm2 = *mm;
    let ghost mem2 = frames@;
    proof {
        let entry = crate::vmm::entry_for(t.frame_a.0, flags);
        lemma_test_mapped(since, t, mm1, mem1, mm2, mem2, a, entry);
        lemma_test_grown(t, mm1, mem1, mm2, mem2);
        lemma_spaces_isolated(mm1, mem1, mm2, mem2, a, b, page, entry, page);
        assert(walk::mapping(mem2, a, page) == Some(entry));
    }
    assert(mm2.is_table(mm2.root.0 as int / 4096));
    if t.b.map_page(frames, mm, test_va, t.frame_b, flags).is_err() {
        proof {
            lemma_test_failed(since, t, mm2, mem2, *mm, frames@);
        }
        return Err("map AS B failed");
    }
    let ghost mem3 = frames@;
    proof {
        let entry = crate::vmm::entry_for(t.frame_b.0, flags);
        lemma_test_mapped(since, t, mm2, mem2, *mm, mem3, b, entry);
        lemma_test_grown(t, mm2, mem2, *mm, mem3);
        lemma_spaces_isolated(mm2, mem2, *mm, mem3, b, a, page, entry, page);
        assert(walk::mapping(mem3, b, page) == Some(entry));
        assert(t.frame_a.0 as int / 4096 != t.frame_b.0 as int / 4096);
    }
    let mut cr3: u64 = mm.root.addr();
    cr3 = match test_activate(frames, mm, asids, cr3, &t.a, t.frame_a) {
        Some(root) => root,
        None => return Err("AS A translation mismatch!"),
    };
    test_write(frames, mm, &t, &t.a, t.frame_a, 0x1111_AAAA_1111_AAAA, Ghost(since));
    cr3 = match test_activate(frames, mm, asids, cr3, &t.b, t.frame_b) {
        Some(root) => root,
        None => return Err("AS B translation mismatch!"),
    };
    test_write(frames, mm, &t, &t.b, t.frame_b, 0x2222_BBBB_2222_BBBB, Ghost(since));
    let _ = t.a.activate(cr3, asids);
    if test_read(frames, mm, &t.a, t.frame_a) != 0x1111_AAAA_1111_AAAA {
        return Err("Isolation failed! AS A canary corrupted by AS B");
    }
    cr3 = t.a.root_page.addr();
    let _ = t.b.activate(cr3, asids);
    if test_read(frames, mm, &t.b, t.frame_b) != 0x2222_BBBB_2222_BBBB {
        return Err("Isolation failed! AS B canary corrupted");
    }
    cr3 = t.b.root_page.addr();
    let boot = AddressSpace::bootstrap(mm);
    let _ = boot.activate(cr3, asids);
    proof {
        assert(mm.is_table(mm.root.0 as int / 4096));
    }
    test_clean_up(frames, mm, t, Ghost(since));
    proof {
        let first = at_first(*old(mm), old(frames)@);
        kept::lemma_kept_wider(first, *mm, frames@, kept::free_frames(*old(mm)));
    }
    Ok(())
}

} // verus!
