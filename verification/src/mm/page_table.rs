//! Page-table entries and a page table that maps virtual page numbers to them.
use vstd::prelude::*;
use std::collections::HashMap;
use crate::config::PAGE_SIZE;
use crate::mm::address::{in_page_range, range_offset, vpn_at, lemma_vpn_at, lemma_range_offset};
use crate::config::VPN_RANGE;
use crate::mm::flags::lemma_u8_bits;

verus! {

/// Entry is valid.
pub const PTE_V: u8 = 1;
/// Page is readable.
pub const PTE_R: u8 = 2;
/// Page is writable.
pub const PTE_W: u8 = 4;
/// Page is executable.
pub const PTE_X: u8 = 8;
/// Page is accessible from user mode.
pub const PTE_U: u8 = 16;

/// A leaf page-table entry: the physical page it points to and its flags
/// (the low eight bits of an Sv39 entry).
#[derive(Clone, Copy)]
pub struct PageTableEntry {
    pub ppn: usize,
    pub flags: u8,
}

impl PageTableEntry {
    pub fn new(ppn: usize, flags: u8) -> (r: Self)
        ensures
            r == (PageTableEntry { ppn, flags }),
    {
        PageTableEntry { ppn, flags }
    }

    /// The all-zero entry that an unmapped slot holds.
    pub open spec fn spec_empty() -> Self {
        PageTableEntry { ppn: 0, flags: 0 }
    }

    pub fn empty() -> (r: Self)
        ensures
            r == Self::spec_empty(),
    {
        PageTableEntry { ppn: 0, flags: 0 }
    }

    pub open spec fn spec_is_valid(&self) -> bool {
        self.flags % 2 == 1
    }

    pub open spec fn spec_readable(&self) -> bool {
        (self.flags / 2) % 2 == 1
    }

    pub open spec fn spec_writable(&self) -> bool {
        (self.flags / 4) % 2 == 1
    }

    pub open spec fn spec_executable(&self) -> bool {
        (self.flags / 8) % 2 == 1
    }

    pub open spec fn spec_usermode(&self) -> bool {
        (self.flags / 16) % 2 == 1
    }

    #[verifier::when_used_as_spec(spec_is_valid)]
    pub fn is_valid(&self) -> (r: bool)
        ensures
            r == self.spec_is_valid(),
    {
        proof {
            lemma_u8_bits(self.flags);
        }
        self.flags & PTE_V != 0
    }

    #[verifier::when_used_as_spec(spec_readable)]
    pub fn readable(&self) -> (r: bool)
        ensures
            r == self.spec_readable(),
    {
        proof {
            lemma_u8_bits(self.flags);
        }
        self.flags & PTE_R != 0
    }

    #[verifier::when_used_as_spec(spec_writable)]
    pub fn writable(&self) -> (r: bool)
        ensures
            r == self.spec_writable(),
    {
        proof {
            lemma_u8_bits(self.flags);
        }
        self.flags & PTE_W != 0
    }

    #[verifier::when_used_as_spec(spec_executable)]
    pub fn executable(&self) -> (r: bool)
        ensures
            r == self.spec_executable(),
    {
        proof {
            lemma_u8_bits(self.flags);
        }
        self.flags & PTE_X != 0
    }

    #[verifier::when_used_as_spec(spec_usermode)]
    pub fn usermode(&self) -> (r: bool)
        ensures
            r == self.spec_usermode(),
    {
        proof {
            lemma_u8_bits(self.flags);
        }
        self.flags & PTE_U != 0
    }
}

/// `flags` with the valid bit set.
pub open spec fn with_valid(flags: u8) -> u8 {
    if flags % 2 == 1 {
        flags
    } else {
        (flags + 1) as u8
    }
}

/// The frame of physical page `ppn` can be addressed in bytes by a `usize`.
pub open spec fn frame_addressable(ppn: usize) -> bool {
    (ppn + 1) * PAGE_SIZE <= usize::MAX + 1
}

/// What looking up `vpn` in the mapping `m` finds: the entry in its slot, if
/// the slot exists.
pub open spec fn spec_translate(m: Map<usize, PageTableEntry>, vpn: usize) -> Option<PageTableEntry> {
    if m.contains_key(vpn) {
        Some(m[vpn])
    } else {
        None
    }
}

/// `vpn` is mapped by a valid entry of `m`.
pub open spec fn is_mapped(m: Map<usize, PageTableEntry>, vpn: usize) -> bool {
    m.contains_key(vpn) && m[vpn].spec_is_valid()
}

/// A page table, seen as the map from virtual page numbers to the entries of
/// the slots that exist. A slot, once created, stays; unmapping a page leaves
/// an empty entry in it.
pub struct PageTable {
    entries: HashMap<usize, PageTableEntry>,
}

impl View for PageTable {
    type V = Map<usize, PageTableEntry>;

    closed spec fn view(&self) -> Map<usize, PageTableEntry> {
        self.entries@
    }
}

impl PageTable {
    /// Every entry points to an addressable frame.
    #[verifier::type_invariant]
    closed spec fn inv(&self) -> bool {
        forall|vpn: usize| #[trigger] self.entries@.contains_key(vpn) ==> frame_addressable(self.entries@[vpn].ppn)
    }

    /// An empty page table.
    pub fn new() -> (r: Self)
        ensures
            r@ == Map::<usize, PageTableEntry>::empty(),
    {
        PageTable { entries: HashMap::new() }
    }

    /// The entry in the slot of `vpn`, if the slot exists.
    pub fn translate(&self, vpn: usize) -> (r: Option<PageTableEntry>)
        ensures
            r == spec_translate(self@, vpn),
            r is Some ==> frame_addressable(r->0.ppn),
    {
        proof {
            use_type_invariant(self);
        }
        match self.entries.get(&vpn) {
            Some(pte) => Some(*pte),
            None => None,
        }
    }

    /// Maps `vpn` to frame `ppn` with `flags`, to which the valid bit is added.
    /// The page must not be mapped already.
    pub fn map(&mut self, vpn: usize, ppn: usize, flags: u8)
        requires
            !is_mapped(old(self)@, vpn),
            frame_addressable(ppn),
        ensures
            final(self)@ == old(self)@.insert(vpn, PageTableEntry { ppn, flags: with_valid(flags) }),
    {
        proof {
            use_type_invariant(&*self);
            lemma_u8_bits(flags);
        }
        let mut entries = HashMap::new();
        std::mem::swap(&mut entries, &mut self.entries);
        entries.insert(vpn, PageTableEntry::new(ppn, flags | PTE_V));
        self.entries = entries;
    }

    /// Unmaps `vpn`, which must be mapped: its slot then holds the empty entry.
    pub fn unmap(&mut self, vpn: usize)
        requires
            is_mapped(old(self)@, vpn),
        ensures
            final(self)@ == old(self)@.insert(vpn, PageTableEntry::spec_empty()),
    {
        proof {
            use_type_invariant(&*self);
        }
        let mut entries = HashMap::new();
        std::mem::swap(&mut entries, &mut self.entries);
        entries.insert(vpn, PageTableEntry::empty());
        self.entries = entries;
    }
}

/// Some page among the `n` pages from page `sv` is mapped in `m`.
pub open spec fn range_has_mapped(m: Map<usize, PageTableEntry>, sv: nat, n: nat) -> bool {
    exists|i: nat| i < n && #[trigger] is_mapped(m, vpn_at(sv, i))
}

/// Every page among the `n` pages from page `sv` is mapped in `m`.
pub open spec fn range_all_mapped(m: Map<usize, PageTableEntry>, sv: nat, n: nat) -> bool {
    forall|i: nat| i < n ==> #[trigger] is_mapped(m, vpn_at(sv, i))
}

/// `m` with the `i`-th of the `n` pages from page `sv` mapped to frame
/// `frames[i]` by an entry with flags `flags`.
pub open spec fn map_range(
    m: Map<usize, PageTableEntry>,
    sv: nat,
    n: nat,
    frames: Seq<usize>,
    flags: u8,
) -> Map<usize, PageTableEntry> {
    Map::new(
        |v: usize| m.contains_key(v) || in_page_range(sv, n, v),
        |v: usize|
            if in_page_range(sv, n, v) {
                PageTableEntry { ppn: frames[range_offset(sv, v)], flags }
            } else {
                m[v]
            },
    )
}

/// `m` with the slots of the `n` pages from page `sv` holding empty entries.
pub open spec fn clear_range(m: Map<usize, PageTableEntry>, sv: nat, n: nat) -> Map<usize, PageTableEntry> {
    Map::new(
        |v: usize| m.contains_key(v) || in_page_range(sv, n, v),
        |v: usize|
            if in_page_range(sv, n, v) {
                PageTableEntry::spec_empty()
            } else {
                m[v]
            },
    )
}

/// Frame `ppn` lies inside a physical memory of `mem_len` bytes.
pub open spec fn frame_in_memory(ppn: usize, mem_len: nat) -> bool {
    (ppn + 1) * PAGE_SIZE <= mem_len
}

/// Every entry of `m` points to a frame that lies inside a physical memory
/// of `mem_len` bytes.
pub open spec fn frames_in_memory(m: Map<usize, PageTableEntry>, mem_len: nat) -> bool {
    forall|vpn: usize| #[trigger] m.contains_key(vpn) ==> (m[vpn].ppn + 1) * PAGE_SIZE <= mem_len
}

/// Mapping one more page of a range.
pub proof fn lemma_map_range_step(
    m: Map<usize, PageTableEntry>,
    sv: nat,
    i: nat,
    frames: Seq<usize>,
    flags: u8,
)
    requires
        sv < VPN_RANGE,
        i < VPN_RANGE,
    ensures
        map_range(m, sv, i, frames, flags).insert(vpn_at(sv, i), PageTableEntry { ppn: frames[i as int], flags })
            == map_range(m, sv, i + 1, frames, flags),
        !in_page_range(sv, i, vpn_at(sv, i)),
{
    lemma_vpn_at(sv, i);
    let a = map_range(m, sv, i, frames, flags).insert(vpn_at(sv, i), PageTableEntry { ppn: frames[i as int], flags });
    let b = map_range(m, sv, i + 1, frames, flags);
    assert forall|v: usize| #[trigger] a.contains_key(v) == b.contains_key(v) by {
        if v < VPN_RANGE {
            lemma_range_offset(sv, v);
        }
    }
    assert forall|v: usize| #[trigger] a.contains_key(v) implies a[v] == b[v] by {
        if v < VPN_RANGE {
            lemma_range_offset(sv, v);
        }
    }
    assert(a =~= b);
}

/// Clearing one more page of a range.
pub proof fn lemma_clear_range_step(m: Map<usize, PageTableEntry>, sv: nat, j: nat)
    requires
        sv < VPN_RANGE,
        j < VPN_RANGE,
    ensures
        clear_range(m, sv, j).insert(vpn_at(sv, j), PageTableEntry::spec_empty()) == clear_range(m, sv, j + 1),
        !in_page_range(sv, j, vpn_at(sv, j)),
{
    lemma_vpn_at(sv, j);
    let a = clear_range(m, sv, j).insert(vpn_at(sv, j), PageTableEntry::spec_empty());
    let b = clear_range(m, sv, j + 1);
    assert forall|v: usize| #[trigger] a.contains_key(v) == b.contains_key(v) by {
        if v < VPN_RANGE {
            lemma_range_offset(sv, v);
        }
    }
    assert forall|v: usize| #[trigger] a.contains_key(v) implies a[v] == b[v] by {
        if v < VPN_RANGE {
            lemma_range_offset(sv, v);
        }
    }
    assert(a =~= b);
}

/// Clearing the pages of a range undoes mapping them.
pub proof fn lemma_clear_map_range(m: Map<usize, PageTableEntry>, sv: nat, n: nat, frames: Seq<usize>, flags: u8)
    ensures
        clear_range(map_range(m, sv, n, frames, flags), sv, n) == clear_range(m, sv, n),
{
    assert(clear_range(map_range(m, sv, n, frames, flags), sv, n) =~= clear_range(m, sv, n));
}

} // verus!
