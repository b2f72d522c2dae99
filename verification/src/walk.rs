//! What a four-level page table hierarchy in physical memory maps.
//!
//! Physical memory is a sequence of frames. A frame that is used as a table has
//! a role: its level (4 for a root down to 1 for the tables that map pages) and
//! the part of the virtual address that leads to it. Frames keep to their
//! roles: an entry of a table above level 1 that is present leads to a table
//! one level down whose role says so. Roots may share tables; a table is still
//! reached by one part of the address only.

use vstd::prelude::*;
use crate::vmm::{PageTable, PageTableEntry, PageTableFlags};

verus! {

/// The number of virtual pages: 36 bits of page number are translated.
pub open spec fn page_limit() -> int {
    0x10_0000_0000
}

/// The page number of a virtual address: its low 48 bits without the offset.
pub open spec fn page_of(addr: u64) -> int {
    (addr as int % 0x1_0000_0000_0000) / 4096
}

/// What a table is for.
pub struct TableRole {
    pub level: nat,
    pub prefix: int,
}

/// The index into a table of level `level` on the way to page `page`.
pub open spec fn slot(page: int, level: nat) -> int {
    if level == 1 {
        page % 512
    } else if level == 2 {
        (page / 512) % 512
    } else if level == 3 {
        (page / 0x4_0000) % 512
    } else {
        (page / 0x800_0000) % 512
    }
}

/// The part of page number `page` that leads to its table of level `level`.
pub open spec fn prefix(page: int, level: nat) -> int {
    if level == 1 {
        page / 512
    } else if level == 2 {
        page / 0x4_0000
    } else if level == 3 {
        page / 0x800_0000
    } else {
        0
    }
}

/// Word `i` of frame `f`.
pub open spec fn word(mem: Seq<PageTable>, f: int, i: int) -> PageTableEntry {
    mem[f].entries@[i]
}

/// The frame that entry `i` of the table in frame `f` leads to.
pub open spec fn link(mem: Seq<PageTable>, f: int, i: int) -> Option<int> {
    if word(mem, f, i).maps() {
        Some(word(mem, f, i).target() as int / 4096)
    } else {
        None
    }
}

/// The table of level `level` on the way from `root` to `page`.
pub open spec fn table_at(mem: Seq<PageTable>, root: int, page: int, level: nat) -> Option<int>
    decreases 4 - level,
{
    if level >= 4 {
        Some(root)
    } else {
        match table_at(mem, root, page, level + 1) {
            Some(t) => link(mem, t, slot(page, level + 1)),
            None => None,
        }
    }
}

/// The entry that maps `page` under `root`, if there is one.
pub open spec fn mapping(mem: Seq<PageTable>, root: int, page: int) -> Option<PageTableEntry> {
    match table_at(mem, root, page, 1) {
        Some(t) => if word(mem, t, slot(page, 1)).maps() {
            Some(word(mem, t, slot(page, 1)))
        } else {
            None
        },
        None => None,
    }
}

/// How many tables are missing on the way from `root` to `page`.
pub open spec fn missing(mem: Seq<PageTable>, root: int, page: int) -> nat {
    if table_at(mem, root, page, 3) is None {
        3
    } else if table_at(mem, root, page, 2) is None {
        2
    } else if table_at(mem, root, page, 1) is None {
        1
    } else {
        0
    }
}

/// The flags that an entry which leads to a table is made with: present, writable
/// and for the user.
pub open spec fn link_flags() -> PageTableFlags {
    PageTableFlags(7)
}

/// An entry that leads to a table allows all that the entries below it may
/// allow: it is present, writable and for the user, neither a large page nor
/// barred from execution. The other flags, which the processor may set where it
/// goes through the entry, do not matter.
pub open spec fn opens(e: PageTableEntry) -> bool {
    e.0 & 0x8000_0000_0000_0087 == 0x7
}

/// An entry that is made with the flags of a link is open.
pub proof fn lemma_made_open(e: PageTableEntry)
    requires
        e.mode() == link_flags(),
    ensures
        opens(e),
{
    let w = e.0;
    assert(w & 0x8000_0000_0000_0087 == 0x7) by (bit_vector)
        requires
            w & 0xFFF0_0000_0000_0FFF == 7,
    ;
}

/// What became of entry `i` of frame `f`, a table above level 1: if it led to a
/// table it is as it was, and else it leads nowhere or was made with the flags
/// of a link.
pub open spec fn link_made(
    mem0: Seq<PageTable>,
    mem1: Seq<PageTable>,
    tables0: Map<int, TableRole>,
    f: int,
    i: int,
) -> bool {
    if tables0.contains_key(f) && word(mem0, f, i).maps() {
        word(mem1, f, i) == word(mem0, f, i)
    } else {
        word(mem1, f, i).maps() ==> word(mem1, f, i).mode() == link_flags()
    }
}

/// The entries that led to tables are as they were, and those that do so now
/// were made with the flags of a link.
#[verifier::opaque]
pub open spec fn links_made(
    mem0: Seq<PageTable>,
    mem1: Seq<PageTable>,
    tables0: Map<int, TableRole>,
    tables1: Map<int, TableRole>,
) -> bool {
    forall|f: int, i: int|
        tables1.contains_key(f) && tables1[f].level > 1 && 0 <= i < 512 ==> #[trigger] link_made(
            mem0,
            mem1,
            tables0,
            f,
            i,
        )
}

/// Where the words above level 1 are the same, so are the links.
pub proof fn lemma_links_same(
    mem0: Seq<PageTable>,
    mem1: Seq<PageTable>,
    tables: Map<int, TableRole>,
)
    requires
        forall|f: int, i: int|
            tables.contains_key(f) && tables[f].level > 1 && 0 <= i < 512 ==> #[trigger] word(
                mem1,
                f,
                i,
            ) == word(mem0, f, i),
    ensures
        links_made(mem0, mem1, tables, tables),
{
    reveal(links_made);
    assert forall|f: int, i: int|
        tables.contains_key(f) && tables[f].level > 1 && 0 <= i < 512 implies #[trigger] link_made(
        mem0,
        mem1,
        tables,
        f,
        i,
    ) by {
        assert(word(mem1, f, i) == word(mem0, f, i));
    }
}

/// Links that are made in two steps are made.
pub proof fn lemma_links_transitive(
    mem0: Seq<PageTable>,
    mem1: Seq<PageTable>,
    mem2: Seq<PageTable>,
    tables0: Map<int, TableRole>,
    tables1: Map<int, TableRole>,
    tables2: Map<int, TableRole>,
)
    requires
        links_made(mem0, mem1, tables0, tables1),
        links_made(mem1, mem2, tables1, tables2),
        forall|f: int| #[trigger]
            tables0.contains_key(f) ==> tables1.contains_key(f) && tables1[f] == tables0[f],
        forall|f: int| #[trigger]
            tables1.contains_key(f) ==> tables2.contains_key(f) && tables2[f] == tables1[f],
    ensures
        links_made(mem0, mem2, tables0, tables2),
{
    reveal(links_made);
    assert forall|f: int, i: int|
        tables2.contains_key(f) && tables2[f].level > 1 && 0 <= i
            < 512 implies #[trigger] link_made(mem0, mem2, tables0, f, i) by {
        assert(link_made(mem1, mem2, tables1, f, i));
        if tables1.contains_key(f) {
            assert(link_made(mem0, mem1, tables0, f, i));
        }
    }
}

/// Entry `i` of frame `f`, a table above level 1, keeps to the roles, and allows
/// all that the entries below it may allow.
pub open spec fn entry_ok(mem: Seq<PageTable>, tables: Map<int, TableRole>, f: int, i: int) -> bool {
    match link(mem, f, i) {
        Some(c) => tables.contains_key(c) && tables[c].level == tables[f].level - 1
            && tables[c].prefix == tables[f].prefix * 512 + i && opens(word(mem, f, i)),
        None => true,
    }
}

/// The frames of `tables` keep to their roles.
pub open spec fn tables_wf(mem: Seq<PageTable>, tables: Map<int, TableRole>) -> bool {
    &&& forall|f: int| #[trigger]
        tables.contains_key(f) ==> 0 < f < mem.len() && 1 <= tables[f].level <= 4 && (
        tables[f].level == 4 ==> tables[f].prefix == 0)
    &&& forall|f: int, i: int|
        tables.contains_key(f) && tables[f].level > 1 && 0 <= i < 512 ==> #[trigger] entry_ok(
            mem,
            tables,
            f,
            i,
        )
}

/// Frame `r` is the root of a hierarchy.
pub open spec fn is_root(tables: Map<int, TableRole>, r: int) -> bool {
    tables.contains_key(r) && tables[r].level == 4
}

/// `mem` and `mem2` hold the same words in the frames of `tables`, but for
/// word `i0` of frame `t0`.
pub open spec fn agree_except(
    mem: Seq<PageTable>,
    mem2: Seq<PageTable>,
    tables: Map<int, TableRole>,
    t0: int,
    i0: int,
) -> bool {
    forall|f: int, i: int|
        tables.contains_key(f) && 0 <= i < 512 && !(f == t0 && i == i0) ==> #[trigger] word(
            mem2,
            f,
            i,
        ) == word(mem, f, i)
}

/// The way from `root` to `page` goes through entry `i0` of table `t0`.
pub open spec fn through(
    mem: Seq<PageTable>,
    tables: Map<int, TableRole>,
    root: int,
    page: int,
    t0: int,
    i0: int,
) -> bool {
    table_at(mem, root, page, tables[t0].level) == Some(t0) && slot(page, tables[t0].level) == i0
}

pub proof fn lemma_slot(page: int, level: nat)
    requires
        0 <= page < page_limit(),
        1 <= level <= 4,
    ensures
        0 <= slot(page, level) < 512,
        level > 1 ==> prefix(page, (level - 1) as nat) == prefix(page, level) * 512 + slot(
            page,
            level,
        ),
        level == 1 ==> page == prefix(page, 1) * 512 + slot(page, 1),
{
}

/// The way to a page goes through tables whose roles say so.
pub proof fn lemma_walk(
    mem: Seq<PageTable>,
    tables: Map<int, TableRole>,
    root: int,
    page: int,
    level: nat,
)
    requires
        tables_wf(mem, tables),
        is_root(tables, root),
        0 <= page < page_limit(),
        1 <= level <= 4,
    ensures
        match table_at(mem, root, page, level) {
            Some(t) => tables.contains_key(t) && tables[t].level == level && tables[t].prefix
                == prefix(page, level),
            None => true,
        },
    decreases 4 - level,
{
    if level < 4 {
        lemma_walk(mem, tables, root, page, level + 1);
        lemma_slot(page, level + 1);
        if let Some(t) = table_at(mem, root, page, level + 1) {
            assert(entry_ok(mem, tables, t, slot(page, level + 1)));
        }
    }
}

/// Where a table is missing, all tables below it are.
pub proof fn lemma_missing_below(mem: Seq<PageTable>, root: int, page: int, high: nat, low: nat)
    requires
        low <= high <= 4,
        table_at(mem, root, page, high) is None,
    ensures
        table_at(mem, root, page, low) is None,
    decreases high - low,
{
    if low < high {
        lemma_missing_below(mem, root, page, high, low + 1);
    }
}

/// Changing one entry leaves the way to every page as it was, up to where it
/// goes through that entry.
pub proof fn lemma_change(
    mem: Seq<PageTable>,
    mem2: Seq<PageTable>,
    tables: Map<int, TableRole>,
    t0: int,
    i0: int,
    root: int,
    page: int,
    level: nat,
)
    requires
        tables_wf(mem, tables),
        agree_except(mem, mem2, tables, t0, i0),
        tables.contains_key(t0),
        is_root(tables, root),
        0 <= page < page_limit(),
        1 <= level <= 4,
        !(level < tables[t0].level && through(mem, tables, root, page, t0, i0)),
    ensures
        table_at(mem2, root, page, level) == table_at(mem, root, page, level),
    decreases 4 - level,
{
    if level < 4 {
        lemma_change(mem, mem2, tables, t0, i0, root, page, level + 1);
        lemma_walk(mem, tables, root, page, level + 1);
        lemma_slot(page, level + 1);
        if let Some(t) = table_at(mem, root, page, level + 1) {
            let i = slot(page, level + 1);
            assert(!(t == t0 && i == i0));
            assert(word(mem2, t, i) == word(mem, t, i));
        }
    }
}

/// Changes outside the tables change no mapping.
pub proof fn lemma_data_change(
    mem: Seq<PageTable>,
    mem2: Seq<PageTable>,
    tables: Map<int, TableRole>,
)
    requires
        tables_wf(mem, tables),
        mem2.len() == mem.len(),
        forall|f: int, i: int|
            tables.contains_key(f) && 0 <= i < 512 ==> #[trigger] word(mem2, f, i) == word(
                mem,
                f,
                i,
            ),
    ensures
        tables_wf(mem2, tables),
        forall|r: int, p: int, l: nat|
            is_root(tables, r) && 0 <= p < page_limit() && 1 <= l <= 4 ==> #[trigger] table_at(
                mem2,
                r,
                p,
                l,
            ) == table_at(mem, r, p, l),
        forall|r: int, p: int|
            is_root(tables, r) && 0 <= p < page_limit() ==> #[trigger] mapping(mem2, r, p)
                == mapping(mem, r, p),
{
    assert forall|f: int, i: int|
        tables.contains_key(f) && tables[f].level > 1 && 0 <= i < 512 implies #[trigger] entry_ok(
        mem2,
        tables,
        f,
        i,
    ) by {
        assert(entry_ok(mem, tables, f, i));
        assert(word(mem2, f, i) == word(mem, f, i));
    }
    assert forall|r: int, p: int, l: nat|
        is_root(tables, r) && 0 <= p < page_limit() && 1 <= l <= 4 implies #[trigger] table_at(
        mem2,
        r,
        p,
        l,
    ) == table_at(mem, r, p, l) by {
        lemma_change(mem, mem2, tables, r, -1, r, p, l);
    }
    assert forall|r: int, p: int|
        is_root(tables, r) && 0 <= p < page_limit() implies #[trigger] mapping(mem2, r, p)
        == mapping(mem, r, p) by {
        assert(table_at(mem2, r, p, 1) == table_at(mem, r, p, 1));
        lemma_walk(mem, tables, r, p, 1);
        lemma_slot(p, 1);
        if let Some(t) = table_at(mem, r, p, 1) {
            assert(word(mem2, t, slot(p, 1)) == word(mem, t, slot(p, 1)));
        }
    }
}

/// Hanging an empty table into a free entry adds that table to the ways that go
/// through the entry, and changes no mapping.
pub proof fn lemma_install(
    mem: Seq<PageTable>,
    mem2: Seq<PageTable>,
    tables: Map<int, TableRole>,
    t0: int,
    i0: int,
    c: int,
)
    requires
        tables_wf(mem, tables),
        mem2.len() == mem.len(),
        agree_except(mem, mem2, tables, t0, i0),
        tables.contains_key(t0),
        tables[t0].level > 1,
        0 <= i0 < 512,
        link(mem, t0, i0) is None,
        link(mem2, t0, i0) == Some(c),
        word(mem2, t0, i0).mode() == link_flags(),
        !tables.contains_key(c),
        0 < c < mem.len(),
        forall|i: int| 0 <= i < 512 ==> !(#[trigger] word(mem2, c, i)).maps(),
    ensures
        ({
            let role = TableRole {
                level: (tables[t0].level - 1) as nat,
                prefix: tables[t0].prefix * 512 + i0,
            };
            let tables2 = tables.insert(c, role);
            &&& tables_wf(mem2, tables2)
            &&& links_made(mem, mem2, tables, tables2)
            &&& forall|r: int, p: int, l: nat|
                is_root(tables, r) && 0 <= p < page_limit() && 1 <= l <= 4 ==> #[trigger] table_at(
                    mem2,
                    r,
                    p,
                    l,
                ) == if l == role.level && through(mem, tables, r, p, t0, i0) {
                    Some(c)
                } else {
                    table_at(mem, r, p, l)
                }
            &&& forall|r: int, p: int|
                is_root(tables, r) && 0 <= p < page_limit() ==> #[trigger] mapping(mem2, r, p)
                    == mapping(mem, r, p)
        }),
{
    let role = TableRole {
        level: (tables[t0].level - 1) as nat,
        prefix: tables[t0].prefix * 512 + i0,
    };
    let tables2 = tables.insert(c, role);
    lemma_made_open(word(mem2, t0, i0));
    assert(links_made(mem, mem2, tables, tables2)) by {
        reveal(links_made);
        assert forall|f: int, i: int|
            tables2.contains_key(f) && tables2[f].level > 1 && 0 <= i
                < 512 implies #[trigger] link_made(mem, mem2, tables, f, i) by {
            if f == c {
                assert(!word(mem2, c, i).maps());
            } else if !(f == t0 && i == i0) {
                assert(entry_ok(mem, tables, f, i));
                assert(word(mem2, f, i) == word(mem, f, i));
            }
        }
    }
    assert forall|f: int, i: int|
        tables2.contains_key(f) && tables2[f].level > 1 && 0 <= i < 512 implies #[trigger] entry_ok(
        mem2,
        tables2,
        f,
        i,
    ) by {
        if f == c {
            assert(!word(mem2, c, i).maps());
        } else if f == t0 && i == i0 {
        } else {
            assert(entry_ok(mem, tables, f, i));
            assert(word(mem2, f, i) == word(mem, f, i));
        }
    }
    assert forall|r: int, p: int, l: nat|
        is_root(tables, r) && 0 <= p < page_limit() && 1 <= l <= 4 implies #[trigger] table_at(
        mem2,
        r,
        p,
        l,
    ) == if l == role.level && through(mem, tables, r, p, t0, i0) {
        Some(c)
    } else {
        table_at(mem, r, p, l)
    } by {
        lemma_install_at(mem, mem2, tables, t0, i0, c, r, p, l);
    }
    assert forall|r: int, p: int|
        is_root(tables, r) && 0 <= p < page_limit() implies #[trigger] mapping(mem2, r, p)
        == mapping(mem, r, p) by {
        lemma_slot(p, 1);
        lemma_walk(mem, tables, r, p, 1);
        let t = table_at(mem2, r, p, 1);
        if 1 == role.level && through(mem, tables, r, p, t0, i0) {
            assert(!word(mem2, c, slot(p, 1)).maps());
        } else if let Some(t) = table_at(mem, r, p, 1) {
            assert(word(mem2, t, slot(p, 1)) == word(mem, t, slot(p, 1)));
        }
    }
}

proof fn lemma_install_at(
    mem: Seq<PageTable>,
    mem2: Seq<PageTable>,
    tables: Map<int, TableRole>,
    t0: int,
    i0: int,
    c: int,
    r: int,
    p: int,
    l: nat,
)
    requires
        tables_wf(mem, tables),
        agree_except(mem, mem2, tables, t0, i0),
        tables.contains_key(t0),
        tables[t0].level > 1,
        0 <= i0 < 512,
        link(mem, t0, i0) is None,
        link(mem2, t0, i0) == Some(c),
        forall|i: int| 0 <= i < 512 ==> !(#[trigger] word(mem2, c, i)).maps(),
        is_root(tables, r),
        0 <= p < page_limit(),
        1 <= l <= 4,
    ensures
        table_at(mem2, r, p, l) == if l == tables[t0].level - 1 && through(
            mem,
            tables,
            r,
            p,
            t0,
            i0,
        ) {
            Some(c)
        } else {
            table_at(mem, r, p, l)
        },
    decreases 4 - l,
{
    let l0 = tables[t0].level;
    if !(l < l0 && through(mem, tables, r, p, t0, i0)) {
        lemma_change(mem, mem2, tables, t0, i0, r, p, l);
    } else {
        lemma_install_at(mem, mem2, tables, t0, i0, c, r, p, l + 1);
        lemma_slot(p, l + 1);
        assert(table_at(mem, r, p, (l0 - 1) as nat) is None);
        lemma_missing_below(mem, r, p, (l0 - 1) as nat, l);
        if l + 1 < l0 - 1 {
            lemma_missing_below(mem, r, p, (l0 - 1) as nat, l + 1);
        } else if l + 1 == l0 - 1 {
            assert(!word(mem2, c, slot(p, l + 1)).maps());
        }
    }
}

/// Writing an entry of a table of level 1 changes the mapping of one page, under
/// the roots whose way to it ends in that table.
pub proof fn lemma_leaf_change(
    mem: Seq<PageTable>,
    mem2: Seq<PageTable>,
    tables: Map<int, TableRole>,
    t0: int,
    i0: int,
)
    requires
        tables_wf(mem, tables),
        mem2.len() == mem.len(),
        agree_except(mem, mem2, tables, t0, i0),
        tables.contains_key(t0),
        tables[t0].level == 1,
        0 <= i0 < 512,
    ensures
        tables_wf(mem2, tables),
        links_made(mem, mem2, tables, tables),
        forall|r: int, p: int, l: nat|
            is_root(tables, r) && 0 <= p < page_limit() && 1 <= l <= 4 ==> #[trigger] table_at(
                mem2,
                r,
                p,
                l,
            ) == table_at(mem, r, p, l),
        forall|r: int, p: int|
            is_root(tables, r) && 0 <= p < page_limit() ==> #[trigger] mapping(mem2, r, p) == if p
                == tables[t0].prefix * 512 + i0 && table_at(mem, r, p, 1) == Some(t0) {
                if word(mem2, t0, i0).maps() {
                    Some(word(mem2, t0, i0))
                } else {
                    None
                }
            } else {
                mapping(mem, r, p)
            },
{
    lemma_links_same(mem, mem2, tables);
    assert forall|f: int, i: int|
        tables.contains_key(f) && tables[f].level > 1 && 0 <= i < 512 implies #[trigger] entry_ok(
        mem2,
        tables,
        f,
        i,
    ) by {
        assert(entry_ok(mem, tables, f, i));
        assert(word(mem2, f, i) == word(mem, f, i));
    }
    assert forall|r: int, p: int, l: nat|
        is_root(tables, r) && 0 <= p < page_limit() && 1 <= l <= 4 implies #[trigger] table_at(
        mem2,
        r,
        p,
        l,
    ) == table_at(mem, r, p, l) by {
        lemma_change(mem, mem2, tables, t0, i0, r, p, l);
    }
    assert forall|r: int, p: int| is_root(tables, r) && 0 <= p < page_limit() implies #[trigger] mapping(
        mem2,
        r,
        p,
    ) == if p == tables[t0].prefix * 512 + i0 && table_at(mem, r, p, 1) == Some(t0) {
        if word(mem2, t0, i0).maps() {
            Some(word(mem2, t0, i0))
        } else {
            None
        }
    } else {
        mapping(mem, r, p)
    } by {
        assert(table_at(mem2, r, p, 1) == table_at(mem, r, p, 1));
        lemma_walk(mem, tables, r, p, 1);
        lemma_slot(p, 1);
        if let Some(t) = table_at(mem, r, p, 1) {
            let i = slot(p, 1);
            if !(t == t0 && i == i0) {
                assert(word(mem2, t, i) == word(mem, t, i));
            }
        }
    }
}

/// Page numbers with the same leading part have the same tables that far.
pub proof fn lemma_same_prefix(mem: Seq<PageTable>, root: int, p: int, q: int, level: nat)
    requires
        0 <= p < page_limit(),
        0 <= q < page_limit(),
        1 <= level <= 4,
        prefix(p, level) == prefix(q, level),
    ensures
        table_at(mem, root, p, level) == table_at(mem, root, q, level),
    decreases 4 - level,
{
    if level < 4 {
        lemma_slot(p, level + 1);
        lemma_slot(q, level + 1);
        lemma_same_prefix(mem, root, p, q, level + 1);
    }
}

/// The ways from two roots to `page` have a table in common.
pub open spec fn shares(mem: Seq<PageTable>, a: int, b: int, page: int) -> bool {
    exists|l: nat|
        1 <= l <= 3 && #[trigger] table_at(mem, a, page, l) is Some && table_at(mem, a, page, l)
            == table_at(mem, b, page, l)
}

/// From `mem` to `mem2` new tables are added to the ways and none is taken out,
/// and never is one added to two roots that had no table in common.
pub open spec fn walks_grow(
    mem: Seq<PageTable>,
    mem2: Seq<PageTable>,
    tables: Map<int, TableRole>,
) -> bool {
    &&& forall|r: int, p: int, l: nat|
        is_root(tables, r) && 0 <= p < page_limit() && 1 <= l <= 4 && table_at(
            mem,
            r,
            p,
            l,
        ) is Some ==> #[trigger] table_at(mem2, r, p, l) == table_at(mem, r, p, l)
    &&& forall|r: int, p: int, l: nat|
        is_root(tables, r) && 0 <= p < page_limit() && 1 <= l <= 4 && table_at(
            mem,
            r,
            p,
            l,
        ) is None && #[trigger] table_at(mem2, r, p, l) is Some ==> !tables.contains_key(
            table_at(mem2, r, p, l)->0,
        )
    &&& forall|a: int, b: int, p: int|
        is_root(tables, a) && is_root(tables, b) && a != b && 0 <= p < page_limit()
            && #[trigger] shares(mem2, a, b, p) ==> shares(mem, a, b, p)
}

/// No mapping differs between `mem` and `mem2`.
pub open spec fn same_mappings(
    mem: Seq<PageTable>,
    mem2: Seq<PageTable>,
    tables: Map<int, TableRole>,
) -> bool {
    forall|r: int, p: int|
        is_root(tables, r) && 0 <= p < page_limit() ==> #[trigger] mapping(mem2, r, p) == mapping(
            mem,
            r,
            p,
        )
}

/// Hanging a new table in keeps apart what had no table in common.
pub proof fn lemma_install_grows(
    mem: Seq<PageTable>,
    mem2: Seq<PageTable>,
    tables: Map<int, TableRole>,
    t0: int,
    i0: int,
    c: int,
)
    requires
        tables_wf(mem, tables),
        tables.contains_key(t0),
        tables[t0].level > 1,
        link(mem, t0, i0) is None,
        !tables.contains_key(c),
        forall|r: int, p: int, l: nat|
            is_root(tables, r) && 0 <= p < page_limit() && 1 <= l <= 4 ==> #[trigger] table_at(
                mem2,
                r,
                p,
                l,
            ) == if l == tables[t0].level - 1 && through(mem, tables, r, p, t0, i0) {
                Some(c)
            } else {
                table_at(mem, r, p, l)
            },
    ensures
        walks_grow(mem, mem2, tables),
{
    let l0 = tables[t0].level;
    assert forall|r: int, p: int, l: nat|
        is_root(tables, r) && 0 <= p < page_limit() && 1 <= l <= 4 && table_at(
            mem,
            r,
            p,
            l,
        ) is Some implies #[trigger] table_at(mem2, r, p, l) == table_at(mem, r, p, l) by {
        if l == l0 - 1 && through(mem, tables, r, p, t0, i0) {
            assert(table_at(mem, r, p, l) is None);
        }
    }
    assert forall|a: int, b: int, p: int|
        is_root(tables, a) && is_root(tables, b) && a != b && 0 <= p < page_limit()
            && #[trigger] shares(mem2, a, b, p) implies shares(mem, a, b, p) by {
        let l = choose|l: nat|
            1 <= l <= 3 && #[trigger] table_at(mem2, a, p, l) is Some && table_at(mem2, a, p, l)
                == table_at(mem2, b, p, l);
        lemma_walk(mem, tables, a, p, l);
        lemma_walk(mem, tables, b, p, l);
        let ta = l == l0 - 1 && through(mem, tables, a, p, t0, i0);
        let tb = l == l0 - 1 && through(mem, tables, b, p, t0, i0);
        assert(table_at(mem2, b, p, l) == if tb { Some(c) } else { table_at(mem, b, p, l) });
        if ta && tb {
            assert(table_at(mem, a, p, l0) == Some(t0));
            assert(table_at(mem, b, p, l0) == Some(t0));
            assert(l0 < 4);
        } else if !ta && !tb {
            assert(table_at(mem, a, p, l) is Some);
        }
    }
}

/// Where a page has a table of level 1, it has them all.
pub proof fn lemma_all_present(mem: Seq<PageTable>, root: int, page: int)
    requires
        table_at(mem, root, page, 1) is Some,
    ensures
        table_at(mem, root, page, 2) is Some,
        table_at(mem, root, page, 3) is Some,
        missing(mem, root, page) == 0,
{
    if table_at(mem, root, page, 2) is None {
        lemma_missing_below(mem, root, page, 2, 1);
    }
    if table_at(mem, root, page, 3) is None {
        lemma_missing_below(mem, root, page, 3, 1);
    }
}

/// Whether the table of level `l` on the way to page `first + i` is missing and
/// not yet needed for the page before it.
pub open spec fn needs_table(
    mem: Seq<PageTable>,
    root: int,
    first: int,
    i: int,
    l: nat,
) -> bool {
    table_at(mem, root, first + i, l) is None && (i == 0 || prefix(first + i, l) != prefix(
        first + i - 1,
        l,
    ))
}

/// How many missing tables page `first + i` needs beyond those of the pages
/// from `first` up to it.
pub open spec fn new_tables(mem: Seq<PageTable>, root: int, first: int, i: int) -> nat {
    (if needs_table(mem, root, first, i, 3) {
        1nat
    } else {
        0nat
    }) + (if needs_table(mem, root, first, i, 2) {
        1nat
    } else {
        0nat
    }) + (if needs_table(mem, root, first, i, 1) {
        1nat
    } else {
        0nat
    })
}

/// How many tables are missing on the ways to the `n` pages from `first` on.
pub open spec fn run_missing(mem: Seq<PageTable>, root: int, first: int, n: nat) -> nat
    decreases n,
{
    if n == 0 {
        0
    } else {
        run_missing(mem, root, first, (n - 1) as nat) + new_tables(mem, root, first, n - 1)
    }
}

/// From `mem0` to `mem1`, `root` got the tables on the ways to the `n` pages
/// from `first` on, and no others.
pub open spec fn run_walks(
    mem0: Seq<PageTable>,
    mem1: Seq<PageTable>,
    root: int,
    first: int,
    n: int,
) -> bool {
    forall|q: int, l: nat|
        0 <= q < page_limit() && 1 <= l <= 4 ==> (#[trigger] table_at(mem1, root, q, l) is Some
            <==> (table_at(mem0, root, q, l) is Some || (n > 0 && prefix(first, l) <= prefix(q, l)
            <= prefix(first + n - 1, l))))
}

/// What is missing for the next page of a run.
pub proof fn lemma_run_step(
    mem0: Seq<PageTable>,
    mem1: Seq<PageTable>,
    root: int,
    first: int,
    n: int,
)
    requires
        run_walks(mem0, mem1, root, first, n),
        0 <= n,
        0 <= first,
        first + n < page_limit(),
    ensures
        missing(mem1, root, first + n) == new_tables(mem0, root, first, n),
{
    let p = first + n;
    assert forall|l: nat| 1 <= l <= 3 implies (#[trigger] table_at(mem1, root, p, l) is None
        <==> needs_table(mem0, root, first, n, l)) by {
        assert(table_at(mem1, root, p, l) is Some <==> (table_at(mem0, root, p, l) is Some || (n > 0
            && prefix(first, l) <= prefix(p, l) <= prefix(first + n - 1, l))));
        assert(prefix(p - 1, l) <= prefix(p, l));
    }
    assert(table_at(mem1, root, p, 3) is None <==> needs_table(mem0, root, first, n, 3));
    assert(table_at(mem1, root, p, 2) is None <==> needs_table(mem0, root, first, n, 2));
    assert(table_at(mem1, root, p, 1) is None <==> needs_table(mem0, root, first, n, 1));
    if table_at(mem1, root, p, 3) is None {
        lemma_missing_below(mem1, root, p, 3, 2);
        lemma_missing_below(mem1, root, p, 3, 1);
    } else if table_at(mem1, root, p, 2) is None {
        lemma_missing_below(mem1, root, p, 2, 1);
    }
}

/// Longer runs need no fewer tables.
pub proof fn lemma_run_missing_grows(
    mem: Seq<PageTable>,
    root: int,
    first: int,
    a: nat,
    b: nat,
)
    requires
        a <= b,
    ensures
        run_missing(mem, root, first, a) <= run_missing(mem, root, first, b),
    decreases b - a,
{
    if a < b {
        lemma_run_missing_grows(mem, root, first, a, (b - 1) as nat);
    }
}

/// The page after those from `first` to below `first + n` extends their tables
/// by its own.
pub proof fn lemma_run_extend(
    mem0: Seq<PageTable>,
    mem1: Seq<PageTable>,
    mem2: Seq<PageTable>,
    root: int,
    first: int,
    n: int,
)
    requires
        run_walks(mem0, mem1, root, first, n),
        0 <= n,
        0 <= first,
        first + n < page_limit(),
        forall|q: int, l: nat|
            0 <= q < page_limit() && 1 <= l <= 4 ==> (#[trigger] table_at(mem2, root, q, l) is Some
                <==> (table_at(mem1, root, q, l) is Some || prefix(q, l) == prefix(first + n, l))),
    ensures
        run_walks(mem0, mem2, root, first, n + 1),
{
    assert forall|q: int, l: nat| 0 <= q < page_limit() && 1 <= l <= 4 implies (#[trigger] table_at(
        mem2,
        root,
        q,
        l,
    ) is Some <==> (table_at(mem0, root, q, l) is Some || (n + 1 > 0 && prefix(first, l) <= prefix(
        q,
        l,
    ) <= prefix(first + n, l)))) by {
        assert(table_at(mem1, root, q, l) is Some <==> (table_at(mem0, root, q, l) is Some || (n > 0
            && prefix(first, l) <= prefix(q, l) <= prefix(first + n - 1, l))));
        assert(prefix(first + n, l) <= prefix(first + n - 1, l) + 1);
        assert(prefix(first + n - 1, l) <= prefix(first + n, l));
        assert(prefix(first, l) <= prefix(first + n, l));
    }
}

/// A frame outside the tables becomes a root whose entries are empty or lead to
/// tables that are already there; the ways from the other roots are as before.
pub proof fn lemma_new_root(
    mem: Seq<PageTable>,
    mem2: Seq<PageTable>,
    tables: Map<int, TableRole>,
    c: int,
)
    requires
        tables_wf(mem, tables),
        mem2.len() == mem.len(),
        0 < c < mem.len(),
        !tables.contains_key(c),
        forall|f: int, i: int|
            tables.contains_key(f) && 0 <= i < 512 ==> #[trigger] word(mem2, f, i) == word(
                mem,
                f,
                i,
            ),
        forall|i: int|
            0 <= i < 512 ==> match #[trigger] link(mem2, c, i) {
                Some(t) => tables.contains_key(t) && tables[t].level == 3 && tables[t].prefix == i
                    && opens(word(mem2, c, i)),
                None => true,
            },
    ensures
        tables_wf(mem2, tables.insert(c, TableRole { level: 4, prefix: 0 })),
        forall|r: int, p: int, l: nat|
            is_root(tables, r) && 0 <= p < page_limit() && 1 <= l <= 4 ==> #[trigger] table_at(
                mem2,
                r,
                p,
                l,
            ) == table_at(mem, r, p, l),
        same_mappings(mem, mem2, tables),
{
    let tables2 = tables.insert(c, TableRole { level: 4, prefix: 0 });
    lemma_data_change(mem, mem2, tables);
    assert forall|f: int, i: int|
        tables2.contains_key(f) && tables2[f].level > 1 && 0 <= i < 512 implies #[trigger] entry_ok(
        mem2,
        tables2,
        f,
        i,
    ) by {
        if f == c {
            assert(link(mem2, c, i) is Some || link(mem2, c, i) is None);
        } else {
            assert(entry_ok(mem2, tables, f, i));
        }
    }
}

/// A root can be dropped: no table leads to it.
pub proof fn lemma_drop_root(mem: Seq<PageTable>, tables: Map<int, TableRole>, c: int)
    requires
        tables_wf(mem, tables),
        is_root(tables, c),
    ensures
        tables_wf(mem, tables.remove(c)),
{
    let left = tables.remove(c);
    assert forall|f: int, i: int|
        left.contains_key(f) && left[f].level > 1 && 0 <= i < 512 implies #[trigger] entry_ok(
        mem,
        left,
        f,
        i,
    ) by {
        assert(entry_ok(mem, tables, f, i));
    }
}

/// A page lacks three tables at most.
pub proof fn lemma_run_missing_bound(mem: Seq<PageTable>, root: int, first: int, n: nat)
    ensures
        run_missing(mem, root, first, n) <= 3 * n,
    decreases n,
{
    if n > 0 {
        lemma_run_missing_bound(mem, root, first, (n - 1) as nat);
    }
}

/// A page that is not the first under its table lacks no table that the page
/// before it does not.
proof fn lemma_no_new_tables(mem: Seq<PageTable>, root: int, first: int, i: int)
    requires
        0 <= first,
        0 < i,
        (first + i) % 512 != 0,
    ensures
        new_tables(mem, root, first, i) == 0,
{
    let page = first + i;
    let q = page / 512;
    let before = page - 1;
    assert(before / 512 == q);
    assert(page / 0x4_0000 == q / 512 && before / 0x4_0000 == q / 512);
    assert(page / 0x800_0000 == q / 0x4_0000 && before / 0x800_0000 == q / 0x4_0000);
    assert(!needs_table(mem, root, first, i, 1));
    assert(!needs_table(mem, root, first, i, 2));
    assert(!needs_table(mem, root, first, i, 3));
}

/// How many tables of the lowest level the `n` pages from `first` on lie under.
pub open spec fn tables_under(first: int, n: nat) -> nat
    decreases n,
{
    if n == 0 {
        0
    } else {
        tables_under(first, (n - 1) as nat) + if n == 1 || (first + n - 1) % 512 == 0 {
            1nat
        } else {
            0nat
        }
    }
}

/// A run lacks three tables at most for each of the lowest level.
proof fn lemma_run_missing_by_table(mem: Seq<PageTable>, root: int, first: int, n: nat)
    requires
        0 <= first,
    ensures
        run_missing(mem, root, first, n) <= 3 * tables_under(first, n),
    decreases n,
{
    if n > 0 {
        lemma_run_missing_by_table(mem, root, first, (n - 1) as nat);
        if n > 1 && (first + (n - 1)) % 512 != 0 {
            lemma_no_new_tables(mem, root, first, n - 1);
        }
    }
}

/// Up to 512 pages lie under two tables of the lowest level at most.
proof fn lemma_tables_under(q: int, o: int, n: nat)
    requires
        0 <= q,
        0 <= o < 512,
        n <= 512,
    ensures
        tables_under(512 * q + o, n) <= 2,
        o + n <= 512 ==> tables_under(512 * q + o, n) <= 1,
    decreases n,
{
    if n > 0 {
        let m = n - 1;
        lemma_tables_under(q, o, m as nat);
        let page = 512 * q + o + m;
        if o + m < 512 {
            assert(page % 512 == o + m);
        } else {
            assert(page == 512 * (q + 1) + (o + m - 512));
            assert(page % 512 == o + m - 512);
        }
    }
}

/// A run of no more pages than a table of the lowest level has entries lacks six
/// tables at most.
pub proof fn lemma_run_missing_short(mem: Seq<PageTable>, root: int, first: int, n: nat)
    requires
        0 <= first,
        n <= 512,
    ensures
        run_missing(mem, root, first, n) <= 6,
{
    assert(first == 512 * (first / 512) + first % 512);
    lemma_tables_under(first / 512, first % 512, n);
    lemma_run_missing_by_table(mem, root, first, n);
}

/// Runs with the same tables on their ways lack the same number.
pub proof fn lemma_run_missing_same(
    mem0: Seq<PageTable>,
    mem1: Seq<PageTable>,
    root: int,
    first: int,
    n: nat,
)
    requires
        0 <= first,
        first + n <= page_limit(),
        forall|p: int, l: nat|
            first <= p < first + n && 1 <= l <= 3 ==> #[trigger] table_at(mem1, root, p, l)
                == table_at(mem0, root, p, l),
    ensures
        run_missing(mem1, root, first, n) == run_missing(mem0, root, first, n),
    decreases n,
{
    if n > 0 {
        lemma_run_missing_same(mem0, mem1, root, first, (n - 1) as nat);
        let p = first + (n - 1);
        assert(table_at(mem1, root, p, 1) == table_at(mem0, root, p, 1));
        assert(table_at(mem1, root, p, 2) == table_at(mem0, root, p, 2));
        assert(table_at(mem1, root, p, 3) == table_at(mem0, root, p, 3));
    }
}

/// What a run lacks is what its first part lacks and what the rest then does.
pub proof fn lemma_run_missing_splits(
    mem0: Seq<PageTable>,
    mem1: Seq<PageTable>,
    root: int,
    first: int,
    n: nat,
    m: nat,
)
    requires
        run_walks(mem0, mem1, root, first, n as int),
        0 <= first,
        0 < n,
        first + n + m <= page_limit(),
    ensures
        run_missing(mem0, root, first, n + m) == run_missing(mem0, root, first, n) + run_missing(
            mem1,
            root,
            first + n,
            m,
        ),
    decreases m,
{
    if m > 0 {
        lemma_run_missing_splits(mem0, mem1, root, first, n, (m - 1) as nat);
        let p = first + n + (m - 1);
        assert forall|l: nat| 1 <= l <= 3 implies (#[trigger] needs_table(
            mem1,
            root,
            first + n,
            m - 1,
            l,
        ) <==> needs_table(mem0, root, first, n + m - 1, l)) by {
            assert(table_at(mem1, root, p, l) is Some <==> (table_at(mem0, root, p, l) is Some || (
            prefix(first, l) <= prefix(p, l) <= prefix(first + n - 1, l))));
            assert(prefix(first, l) <= prefix(first + n - 1, l) <= prefix(p - 1, l) <= prefix(p, l));
        }
        assert(needs_table(mem1, root, first + n, m - 1, 3) <==> needs_table(
            mem0,
            root,
            first,
            n + m - 1,
            3,
        ));
        assert(needs_table(mem1, root, first + n, m - 1, 2) <==> needs_table(
            mem0,
            root,
            first,
            n + m - 1,
            2,
        ));
        assert(needs_table(mem1, root, first + n, m - 1, 1) <==> needs_table(
            mem0,
            root,
            first,
            n + m - 1,
            1,
        ));
    }
}

/// The entry of a page alone decides what the page allows: each link on the way
/// to it allows all that an entry below may allow.
pub proof fn lemma_links_open(
    mem: Seq<PageTable>,
    tables: Map<int, TableRole>,
    root: int,
    page: int,
    level: nat,
)
    requires
        tables_wf(mem, tables),
        is_root(tables, root),
        0 <= page < page_limit(),
        2 <= level <= 4,
        mapping(mem, root, page) is Some,
    ensures
        table_at(mem, root, page, level) is Some,
        opens(word(mem, table_at(mem, root, page, level)->0, slot(page, level))),
{
    if table_at(mem, root, page, level) is None {
        lemma_missing_below(mem, root, page, level, 1);
    }
    if table_at(mem, root, page, (level - 1) as nat) is None {
        lemma_missing_below(mem, root, page, (level - 1) as nat, 1);
    }
    lemma_walk(mem, tables, root, page, level);
    lemma_slot(page, level);
    let t = table_at(mem, root, page, level)->0;
    assert(entry_ok(mem, tables, t, slot(page, level)));
}

} // verus!
