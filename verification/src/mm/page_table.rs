//! Sv39 page tables.
//!
//! Sv39 splits a 39-bit virtual address into three 9-bit indices and a 12-bit
//! page offset. A walk starts at the frame in `satp` and follows non-leaf
//! entries down; an entry with any of R/W/X set is a leaf and terminates the
//! walk, which is what makes 2 MiB and 1 GiB superpages possible at levels 1
//! and 0.
//!
//! A [`PageTable`] owns every frame it allocates -- root and interior alike --
//! so destroying an address space is just releasing the table.

use vstd::prelude::*;
use crate::bits;
use crate::config::{PAGE_SIZE, PTE_PER_TABLE, SV39_LEVELS};
use crate::mm::addr::{self, PhysAddr, PhysPageNum, VirtAddr, VirtPageNum};
use crate::mm::frame::{self, Frame, Memory};

verus! {

/// Permission and state bits of a page table entry.
#[derive(Clone, Copy, PartialEq, Eq, Structural, Default)]
pub struct PteFlags(pub u64);

impl PteFlags {
    /// Entry is valid. Cleared means the walk faults here.
    pub const VALID: u64 = 1 << 0;

    /// Readable.
    pub const READ: u64 = 1 << 1;

    /// Writable. Meaningless without `READ` -- W-only is a reserved encoding.
    pub const WRITE: u64 = 1 << 2;

    /// Executable.
    pub const EXEC: u64 = 1 << 3;

    /// Reachable from user mode. Kernel pages must leave this clear.
    pub const USER: u64 = 1 << 4;

    /// Global: the mapping is identical in every address space. Set on all
    /// kernel mappings.
    pub const GLOBAL: u64 = 1 << 5;

    /// Accessed. A zero A bit may fault, so the kernel presets it.
    pub const ACCESSED: u64 = 1 << 6;

    /// Dirty. Same story as `ACCESSED`, for writes.
    pub const DIRTY: u64 = 1 << 7;

    /// Bit 8, reserved for supervisor use: marks copy-on-write pages.
    pub const COW: u64 = 1 << 8;

    /// Bit 9, also software-defined: reserved but not yet backed by a frame.
    pub const LAZY: u64 = 1 << 9;

    /// No bits set.
    pub const EMPTY: u64 = 0;

    /// Read + write, the usual data mapping.
    pub const RW: u64 = Self::READ | Self::WRITE;

    /// Read + execute, for text.
    pub const RX: u64 = Self::READ | Self::EXEC;

    /// Read + write + execute.
    pub const RWX: u64 = Self::READ | Self::WRITE | Self::EXEC;

    /// Are all the bits in `other` present?
    pub open spec fn has(self, other: u64) -> bool {
        self.0 & other == other
    }

    /// Are all the bits in `other` present?
    pub fn contains(self, other: PteFlags) -> (r: bool)
        ensures
            r == self.has(other.0),
    {
        self.0 & other.0 == other.0
    }

    /// Is any bit in `other` present?
    pub fn intersects(self, other: PteFlags) -> (r: bool)
        ensures
            r == (self.0 & other.0 != 0),
    {
        self.0 & other.0 != 0
    }

    /// Union.
    pub fn union(self, other: PteFlags) -> (r: PteFlags)
        ensures
            r.0 == self.0 | other.0,
    {
        PteFlags(self.0 | other.0)
    }

    /// Everything in `self` that is not in `other`.
    pub fn without(self, other: PteFlags) -> (r: PteFlags)
        ensures
            r.0 == self.0 & !other.0,
    {
        PteFlags(self.0 & !other.0)
    }

    /// The letter of flag bit `k`.
    pub open spec fn letter(k: int) -> char {
        seq!['V', 'R', 'W', 'X', 'U', 'G', 'A', 'D', 'C', 'L'][k]
    }

    /// One letter per flag, or a dash. Fixed-width so that a column of dumped
    /// entries lines up.
    pub fn letters(self) -> (r: Vec<char>)
        ensures
            r@.len() == 10,
            forall|k: int|
                0 <= k < 10 ==> #[trigger] r@[k] == (if bits::bit_of(self.0, k as u64) {
                    Self::letter(k)
                } else {
                    '-'
                }),
    {
        let names: [char; 10] = ['V', 'R', 'W', 'X', 'U', 'G', 'A', 'D', 'C', 'L'];
        let mut out: Vec<char> = Vec::new();
        let mut k: usize = 0;
        while k < 10
            invariant
                k <= 10,
                names@ == seq!['V', 'R', 'W', 'X', 'U', 'G', 'A', 'D', 'C', 'L'],
                out@.len() == k,
                forall|j: int|
                    0 <= j < k ==> #[trigger] out@[j] == (if bits::bit_of(self.0, j as u64) {
                        Self::letter(j)
                    } else {
                        '-'
                    }),
            decreases 10 - k,
        {
            let set: bool = (self.0 >> (k as u64)) & 1 != 0;
            out.push(if set {
                names[k]
            } else {
                '-'
            });
            k = k + 1;
        }
        out
    }
}

impl core::ops::BitOr for PteFlags {
    type Output = PteFlags;

    fn bitor(self, rhs: PteFlags) -> (r: PteFlags)
        ensures
            r.0 == self.0 | rhs.0,
    {
        PteFlags(self.0 | rhs.0)
    }
}

impl vstd::std_specs::ops::BitOrSpecImpl for PteFlags {
    open spec fn obeys_bitor_spec() -> bool {
        true
    }

    open spec fn bitor_req(self, rhs: PteFlags) -> bool {
        true
    }

    open spec fn bitor_spec(self, rhs: PteFlags) -> PteFlags {
        PteFlags(self.0 | rhs.0)
    }
}

/// Frame number in entry `w`: bits 53:10.
pub open spec fn entry_ppn(w: u64) -> int {
    (w as int / 1024) % 0x1000_0000_0000
}

/// Flag bits of entry `w`: bits 9:0.
pub open spec fn entry_flags(w: u64) -> u64 {
    w % 1024
}

/// Does the walk continue through entry `w`, or end there with a mapping?
pub open spec fn entry_valid(w: u64) -> bool {
    w % 2 == 1
}

/// Does entry `w` map a page rather than name a table?
pub open spec fn entry_leaf(w: u64) -> bool {
    w % 2 == 1 && (w / 2) % 8 != 0
}

/// Does entry `w` name a table?
pub open spec fn entry_pointer(w: u64) -> bool {
    w % 2 == 1 && (w / 2) % 8 == 0
}

/// The entry for frame `ppn` with flag bits `flags`.
pub open spec fn make_entry(ppn: int, flags: u64) -> u64 {
    (ppn * 1024 + flags) as u64
}

/// The fields of an entry that was made of them.
pub proof fn lemma_make_entry(ppn: int, flags: u64)
    requires
        0 <= ppn < 0x1000_0000_0000,
        flags < 1024,
    ensures
        make_entry(ppn, flags) == ppn * 1024 + flags,
        entry_ppn(make_entry(ppn, flags)) == ppn,
        entry_flags(make_entry(ppn, flags)) == flags,
{
}

/// The fields of an entry as bits.
proof fn lemma_entry_bits(w: u64)
    by (bit_vector)
    ensures
        w & 0x3ff == w % 1024,
        (w >> 10) & 0xfff_ffff_ffff == (w / 1024) % 0x1000_0000_0000,
        (((w & 0x3ff) & 1) == 1) == (w % 2 == 1),
        (((w & 0x3ff) & 0xe) != 0) == ((w / 2) % 8 != 0),
        w & !0x3ffu64 == w - w % 1024,
{
}

proof fn lemma_entry_pack(p: u64, f: u64)
    by (bit_vector)
    requires
        p < 0x1000_0000_0000,
        f < 1024,
    ensures
        (p << 10) | f == p * 1024 + f,
        p * 1024 + f < 0x40_0000_0000_0000,
{
}

proof fn lemma_entry_repack(w: u64, f: u64)
    by (bit_vector)
    requires
        f < 1024,
    ensures
        (w & !0x3ffu64) | f == (w - w % 1024) + f,
{
}

/// The flags as arithmetic on the flag bits.
pub proof fn lemma_flag_bits(f: u64)
    by (bit_vector)
    ensures
        (f & 2 == 2) == ((f / 2) % 2 == 1),
        (f & 4 == 4) == ((f / 4) % 2 == 1),
        (f & 8 == 8) == ((f / 8) % 2 == 1),
        (f & 16 == 16) == ((f / 16) % 2 == 1),
        (f & 14 != 0) == ((f / 2) % 8 != 0),
        1u64 << 0 == 1,
        1u64 << 1 == 2,
        1u64 << 2 == 4,
        1u64 << 3 == 8,
        1u64 << 4 == 16,
        1u64 << 5 == 32,
        1u64 << 6 == 64,
        1u64 << 7 == 128,
        1u64 << 8 == 256,
        1u64 << 9 == 512,
        2u64 | 4u64 == 6,
        2u64 | 8u64 == 10,
        6u64 | 8u64 == 14,
{
}

/// The permission flags of an entry are those of its low bits.
pub proof fn lemma_flags_low(w: u64)
    by (bit_vector)
    ensures
        ((w % 1024) & 4 == 4) == (w & 4 == 4),
        ((w % 1024) & 8 == 8) == (w & 8 == 8),
        ((w % 1024) & 16 == 16) == (w & 16 == 16),
{
}

/// The flags an entry is installed with: those asked for, and valid, accessed
/// and dirty.
pub open spec fn installed(flags: u64) -> u64 {
    flags | 0xc1
}

/// What installing leaves of the flags.
pub proof fn lemma_installed(f: u64)
    by (bit_vector)
    requires
        f < 1024,
    ensures
        installed(f) < 1024,
        installed(f) % 2 == 1,
        (installed(f) / 2) % 8 == (f / 2) % 8,
        installed(f) & f == f,
        (installed(f) & 2 == 2) == (f & 2 == 2),
        (installed(f) & 4 == 4) == (f & 4 == 4),
        (installed(f) & 8 == 8) == (f & 8 == 8),
        (installed(f) & 16 == 16) == (f & 16 == 16),
        installed(f) & 0xc1 == 0xc1,
        f | 1 | (1u64 << 6) | (1u64 << 7) == installed(f),
        installed(f) | 0xc1 == installed(f),
{
}

/// One page table entry: `(ppn << 10) | flags`.
#[derive(Clone, Copy, PartialEq, Eq, Structural, Default)]
pub struct Pte(pub u64);

impl Pte {
    /// Bits below the PPN field.
    pub const FLAG_MASK: u64 = 0x3ff;

    /// An entry that faults on any access.
    pub const EMPTY: u64 = 0;

    /// Build an entry pointing at `ppn` with `flags`.
    pub fn new(ppn: PhysPageNum, flags: PteFlags) -> (r: Pte)
        requires
            ppn.0 < 0x1000_0000_0000,
            flags.0 <= Self::FLAG_MASK,
        ensures
            r.0 == make_entry(ppn.0 as int, flags.0),
            entry_ppn(r.0) == ppn.0,
            entry_flags(r.0) == flags.0,
    {
        proof {
            lemma_entry_pack(ppn.0, flags.0);
        }
        Pte((ppn.0 << 10) | flags.0)
    }

    /// Frame this entry points at -- the next table for an interior entry, the
    /// mapped page for a leaf.
    pub fn ppn(self) -> (r: PhysPageNum)
        ensures
            r.0 == entry_ppn(self.0),
    {
        proof {
            lemma_entry_bits(self.0);
        }
        PhysPageNum((self.0 >> 10) & 0xfff_ffff_ffff)
    }

    /// Permission and state bits.
    pub fn flags(self) -> (r: PteFlags)
        ensures
            r.0 == entry_flags(self.0),
    {
        proof {
            lemma_entry_bits(self.0);
        }
        PteFlags(self.0 & Self::FLAG_MASK)
    }

    /// Replace the flags, keeping the frame.
    pub fn set_flags(&mut self, flags: PteFlags)
        requires
            flags.0 <= Self::FLAG_MASK,
        ensures
            final(self).0 == old(self).0 - old(self).0 % 1024 + flags.0,
            entry_ppn(final(self).0) == entry_ppn(old(self).0),
            entry_flags(final(self).0) == flags.0,
    {
        proof {
            lemma_entry_repack(self.0, flags.0);
        }
        self.0 = (self.0 & !Self::FLAG_MASK) | flags.0;
    }

    /// Does the walk continue through this entry?
    pub fn is_valid(self) -> (r: bool)
        ensures
            r == entry_valid(self.0),
    {
        proof {
            lemma_entry_bits(self.0);
            lemma_flag_bits(self.0);
        }
        self.flags().contains(PteFlags(PteFlags::VALID))
    }

    /// Is this a leaf -- that is, does it map a page rather than name a table?
    ///
    /// The distinguishing feature is any of R/W/X being set; a valid entry with
    /// none of them is a pointer to the next level.
    pub fn is_leaf(self) -> (r: bool)
        ensures
            r == entry_leaf(self.0),
    {
        proof {
            lemma_entry_bits(self.0);
            lemma_flag_bits(self.0);
        }
        self.is_valid() && self.flags().intersects(PteFlags(PteFlags::RWX))
    }
}

/// Why a mapping operation failed.
#[derive(Debug, Clone, Copy, PartialEq, Eq, Structural)]
pub enum MapError {
    /// The virtual page already has a valid mapping.
    AlreadyMapped,
    /// The virtual page has no mapping to remove or modify.
    NotMapped,
    /// The frame allocator could not supply an interior table.
    OutOfMemory,
}

/// Where a walk for a page comes out at some level.
pub enum Path {
    /// It reaches this table, which has the page's slot of that level.
    Slot(int),
    /// The entry at this level is not valid.
    Absent(int),
    /// The entry at this level is a leaf.
    Leaf(int),
}

/// The walk from table `root` for page `vpn`, down to `level`.
pub open spec fn path(mem: Memory, root: int, vpn: int, level: int) -> Path
    decreases level,
{
    if level <= 0 {
        Path::Slot(root)
    } else {
        match path(mem, root, vpn, level - 1) {
            Path::Slot(t) => {
                let w = mem.word(t, addr::table_index(vpn, level - 1));
                if !entry_valid(w) {
                    Path::Absent(level - 1)
                } else if entry_leaf(w) {
                    Path::Leaf(level - 1)
                } else {
                    Path::Slot(entry_ppn(w))
                }
            },
            other => other,
        }
    }
}

/// What the hardware finds for page `vpn`: the level and the entry of its leaf,
/// if it is mapped.
pub open spec fn walk(mem: Memory, root: int, vpn: int) -> Option<(int, u64)> {
    match path(mem, root, vpn, 2) {
        Path::Slot(t) => {
            let w = mem.word(t, addr::table_index(vpn, 2));
            if entry_valid(w) {
                Some((2, w))
            } else {
                None
            }
        },
        Path::Leaf(l) => match path(mem, root, vpn, l) {
            Path::Slot(t) => Some((l, mem.word(t, addr::table_index(vpn, l)))),
            _ => None,
        },
        Path::Absent(_) => None,
    }
}

/// The entry that maps page `vpn` as a 4 KiB page, if there is one.
pub open spec fn translation(mem: Memory, root: int, vpn: int) -> Option<u64> {
    match walk(mem, root, vpn) {
        Some((l, w)) => if l == 2 {
            Some(w)
        } else {
            None
        },
        None => None,
    }
}

/// Pages that a leaf at `level` maps.
pub open spec fn level_pages(level: int) -> int {
    if level == 0 {
        0x4_0000
    } else if level == 1 {
        512
    } else {
        1
    }
}

/// Do pages `a` and `b` have the same slot at `level`?
pub open spec fn same_slot(a: int, b: int, level: int) -> bool {
    &&& addr::table_index(a, 0) == addr::table_index(b, 0)
    &&& level >= 1 ==> addr::table_index(a, 1) == addr::table_index(b, 1)
    &&& level >= 2 ==> addr::table_index(a, 2) == addr::table_index(b, 2)
}

/// The place of a table in the tree: its level and the indices that lead to it.
pub struct Place {
    /// 0 for the root.
    pub level: int,
    /// Index in the root, below level 0.
    pub i0: int,
    /// Index in the level-1 table, below level 1.
    pub i1: int,
}

/// The place at `level` on the way to page `vpn`.
pub open spec fn place_of(vpn: int, level: int) -> Place {
    Place {
        level,
        i0: if level >= 1 {
            addr::table_index(vpn, 0)
        } else {
            0
        },
        i1: if level >= 2 {
            addr::table_index(vpn, 1)
        } else {
            0
        },
    }
}

/// The place that entry `i` of the table at `p` leads to.
pub open spec fn below(p: Place, i: int) -> Place {
    if p.level == 0 {
        Place { level: 1, i0: i, i1: 0 }
    } else {
        Place { level: p.level + 1, i0: p.i0, i1: i }
    }
}

/// Every table has one place in the tree: what an entry leads to is a table with
/// the place that the entry stands for. So no table is reached in two ways.
#[verifier::opaque]
pub open spec fn tree(mem: Memory, root: int, places: Map<int, Place>) -> bool {
    &&& places.dom().contains(root)
    &&& places[root] == (Place { level: 0, i0: 0, i1: 0 })
    &&& forall|t: int|
        #[trigger] places.dom().contains(t) ==> {
            &&& mem.owns(t, 0)
            &&& 0 <= places[t].level <= 2
            &&& places[t].level == 0 ==> t == root
        }
    &&& forall|t: int, i: int|
        #![trigger mem.word(t, i)]
        places.dom().contains(t) && places[t].level < 2 && 0 <= i < 512 && entry_pointer(mem.word(t, i))
            ==> places.dom().contains(entry_ppn(mem.word(t, i))) && places[entry_ppn(mem.word(t, i))]
            == below(places[t], i)
}

/// Table indices are below 512.
pub proof fn lemma_index(vpn: int, level: int)
    requires
        0 <= vpn,
    ensures
        0 <= addr::table_index(vpn, level) < 512,
{
}

/// Where walks come out in a tree.
proof fn lemma_path(mem: Memory, root: int, places: Map<int, Place>, vpn: int, level: int)
    requires
        tree(mem, root, places),
        0 <= vpn,
        0 <= level <= 2,
    ensures
        match path(mem, root, vpn, level) {
            Path::Slot(t) => places.dom().contains(t) && places[t] == place_of(vpn, level) && mem.owns(t, 0),
            Path::Absent(l) => 0 <= l < level && (path(mem, root, vpn, l) matches Path::Slot(t)
                && !entry_valid(mem.word(t, addr::table_index(vpn, l)))),
            Path::Leaf(l) => 0 <= l < level && (path(mem, root, vpn, l) matches Path::Slot(t) && entry_leaf(
                mem.word(t, addr::table_index(vpn, l)),
            )),
        },
    decreases level,
{
    reveal(tree);
    if level > 0 {
        lemma_path(mem, root, places, vpn, level - 1);
        lemma_index(vpn, level - 1);
    }
}

/// Paths at a lower level, given where the walk stops.
proof fn lemma_path_stops(mem: Memory, root: int, vpn: int, low: int, high: int)
    requires
        0 <= low <= high <= 2,
    ensures
        path(mem, root, vpn, high) is Slot ==> path(mem, root, vpn, low) is Slot,
        !(path(mem, root, vpn, low) is Slot) ==> path(mem, root, vpn, high) == path(mem, root, vpn, low),
    decreases high - low,
{
    if low < high {
        lemma_path_stops(mem, root, vpn, low, high - 1);
    }
}

/// Pages with the same indices above `level` share the walk down to it.
proof fn lemma_path_shared(mem: Memory, root: int, a: int, b: int, level: int)
    requires
        0 <= level <= 2,
        place_of(a, level) == place_of(b, level),
    ensures
        path(mem, root, a, level) == path(mem, root, b, level),
    decreases level,
{
    if level > 0 {
        assert(place_of(a, level - 1) == place_of(b, level - 1));
        lemma_path_shared(mem, root, a, b, level - 1);
    }
}

/// A walk that does not go through entry `i` of table `t` does not see it change.
proof fn lemma_path_kept(
    m0: Memory,
    m1: Memory,
    root: int,
    places: Map<int, Place>,
    t: int,
    i: int,
    vpn: int,
    level: int,
)
    requires
        tree(m0, root, places),
        places.dom().contains(t),
        0 <= vpn,
        0 <= level <= 2,
        forall|q: int, j: int|
            places.dom().contains(q) && 0 <= j < 512 && !(q == t && j == i) ==> #[trigger] m1.word(q, j)
                == m0.word(q, j),
        place_of(vpn, places[t].level) == places[t] && places[t].level < level ==> addr::table_index(
            vpn,
            places[t].level,
        ) != i,
    ensures
        path(m1, root, vpn, level) == path(m0, root, vpn, level),
    decreases level,
{
    if level > 0 {
        lemma_path_kept(m0, m1, root, places, t, i, vpn, level - 1);
        lemma_path(m0, root, places, vpn, level - 1);
        lemma_index(vpn, level - 1);
    }
}

/// What changing entry `i` of table `t` does to walks: those through it may
/// change, the others do not.
proof fn lemma_walk_kept(
    m0: Memory,
    m1: Memory,
    root: int,
    places: Map<int, Place>,
    t: int,
    i: int,
    vpn: int,
)
    requires
        tree(m0, root, places),
        places.dom().contains(t),
        0 <= vpn,
        forall|q: int, j: int|
            places.dom().contains(q) && 0 <= j < 512 && !(q == t && j == i) ==> #[trigger] m1.word(q, j)
                == m0.word(q, j),
        place_of(vpn, places[t].level) == places[t] ==> addr::table_index(vpn, places[t].level) != i,
    ensures
        walk(m1, root, vpn) == walk(m0, root, vpn),
{
    lemma_path_kept(m0, m1, root, places, t, i, vpn, 2);
    lemma_path(m0, root, places, vpn, 2);
    lemma_index(vpn, 0);
    lemma_index(vpn, 1);
    lemma_index(vpn, 2);
    match path(m0, root, vpn, 2) {
        Path::Leaf(l) => {
            lemma_path_kept(m0, m1, root, places, t, i, vpn, l);
            lemma_path(m0, root, places, vpn, l);
        },
        _ => {},
    }
}

/// Is the slot of page `vpn` at `level` taken, or the page below a leaf?
pub open spec fn blocked(mem: Memory, root: int, vpn: int, level: int) -> bool {
    match path(mem, root, vpn, level) {
        Path::Slot(t) => entry_valid(mem.word(t, addr::table_index(vpn, level))),
        Path::Leaf(_) => true,
        Path::Absent(_) => false,
    }
}

/// Number of interior tables missing on the way to the slot of page `vpn` at
/// `level`.
pub open spec fn missing(mem: Memory, root: int, vpn: int, level: int) -> int {
    match path(mem, root, vpn, level) {
        Path::Absent(l) => level - l,
        _ => 0,
    }
}

/// How many tables below the root the walks for two pages share.
pub open spec fn shared(a: int, b: int) -> int {
    if addr::table_index(a, 0) != addr::table_index(b, 0) {
        0
    } else if addr::table_index(a, 1) != addr::table_index(b, 1) {
        1
    } else {
        2
    }
}

/// What is missing for page `w` at level `lev` once the walk for page `vpn` goes
/// down to `depth`.
pub open spec fn still_missing(m: int, w: int, lev: int, vpn: int, depth: int) -> int {
    let s = shared(w, vpn);
    let have = if s < depth {
        s
    } else {
        depth
    };
    if lev <= have {
        0
    } else if m <= lev - have {
        m
    } else {
        lev - have
    }
}

/// `mem` is `before` with the tables on the way to page `vpn` in place, down to
/// `depth`.
#[verifier::opaque]
pub open spec fn reached(mem: Memory, before: Memory, root: int, vpn: int, depth: int) -> bool {
    &&& forall|w: int, lev: int|
        0 <= w && 0 <= lev <= 2 ==> #[trigger] blocked(mem, root, w, lev) == (blocked(before, root, w, lev) || (
        lev < depth && same_slot(w, vpn, lev)))
    &&& forall|w: int, lev: int|
        0 <= w && 0 <= lev <= 2 ==> #[trigger] missing(mem, root, w, lev) == still_missing(
            missing(before, root, w, lev),
            w,
            lev,
            vpn,
            depth,
        )
}

/// `mem` is `before` with a leaf for page `vpn` installed at `level`: what slots
/// are taken and what tables are missing.
#[verifier::opaque]
pub open spec fn occupied(mem: Memory, before: Memory, root: int, vpn: int, level: int) -> bool {
    &&& forall|w: int, lev: int|
        0 <= w && 0 <= lev <= 2 ==> #[trigger] blocked(mem, root, w, lev) == (blocked(before, root, w, lev)
            || same_slot(
            w,
            vpn,
            if lev < level {
                lev
            } else {
                level
            },
        ))
    &&& forall|w: int, lev: int|
        0 <= w && 0 <= lev <= 2 ==> #[trigger] missing(mem, root, w, lev) == (if lev > level && same_slot(
            w,
            vpn,
            level,
        ) {
            0
        } else {
            still_missing(missing(before, root, w, lev), w, lev, vpn, level)
        })
}

/// At most one table is missing for each level.
pub proof fn lemma_missing(mem: Memory, root: int, vpn: int, level: int)
    requires
        0 <= level <= 2,
    ensures
        0 <= missing(mem, root, vpn, level) <= level,
        path(mem, root, vpn, level) is Absent ==> missing(mem, root, vpn, level) > 0,
{
    reveal_with_fuel(path, 3);
}

proof fn lemma_reached_none(mem: Memory, root: int, vpn: int)
    requires
        0 <= vpn,
    ensures
        reached(mem, mem, root, vpn, 0),
{
    reveal(reached);
    assert forall|w: int, lev: int| 0 <= w && 0 <= lev <= 2 implies #[trigger] missing(mem, root, w, lev)
        == still_missing(missing(mem, root, w, lev), w, lev, vpn, 0) by {
        lemma_missing(mem, root, w, lev);
    }
}

/// A table that is there already takes the walk one level further.
proof fn lemma_reached_further(mem: Memory, before: Memory, root: int, vpn: int, depth: int, t: int)
    requires
        0 <= vpn,
        0 <= depth < 2,
        reached(mem, before, root, vpn, depth),
        path(mem, root, vpn, depth) == Path::Slot(t),
        entry_pointer(mem.word(t, addr::table_index(vpn, depth))),
    ensures
        reached(mem, before, root, vpn, depth + 1),
{
    reveal(reached);
    assert forall|w: int, lev: int| 0 <= w && 0 <= lev <= 2 implies #[trigger] blocked(mem, root, w, lev) == (
    blocked(before, root, w, lev) || (lev < depth + 1 && same_slot(w, vpn, lev))) by {
        if lev == depth && same_slot(w, vpn, lev) {
            lemma_path_shared(mem, root, w, vpn, depth);
        }
    }
    assert forall|w: int, lev: int| 0 <= w && 0 <= lev <= 2 implies #[trigger] missing(mem, root, w, lev)
        == still_missing(missing(before, root, w, lev), w, lev, vpn, depth + 1) by {
        let s = shared(w, vpn);
        lemma_missing(mem, root, w, lev);
        lemma_missing(before, root, w, lev);
        assert(missing(mem, root, w, lev) == still_missing(missing(before, root, w, lev), w, lev, vpn, depth));
        if s > depth {
            assert(same_slot(w, vpn, depth));
            lemma_path_shared(mem, root, w, vpn, depth + 1);
            assert(path(mem, root, vpn, depth + 1) is Slot);
            if lev >= depth + 1 {
                lemma_path_stops(mem, root, w, depth + 1, lev);
                lemma_missing_below(mem, root, w, depth + 1, lev);
            }
        }
    }
}

/// A new table takes the walk one level further.
proof fn lemma_reached_graft(mem: Memory, mid: Memory, before: Memory, root: int, vpn: int, depth: int)
    requires
        0 <= vpn,
        0 <= depth < 2,
        reached(mid, before, root, vpn, depth),
        forall|v: int, lev: int|
            0 <= v && 0 <= lev <= 2 ==> #[trigger] blocked(mem, root, v, lev) == (blocked(mid, root, v, lev) || (
            lev == depth && same_slot(v, vpn, depth))),
        forall|v: int, lev: int|
            0 <= v && 0 <= lev <= 2 ==> #[trigger] missing(mem, root, v, lev) == (if same_slot(v, vpn, depth)
                && lev > depth {
                lev - (depth + 1)
            } else {
                missing(mid, root, v, lev)
            }),
        path(mid, root, vpn, depth + 1) == Path::Absent(depth),
    ensures
        reached(mem, before, root, vpn, depth + 1),
{
    reveal(reached);
    assert forall|w: int, lev: int| 0 <= w && 0 <= lev <= 2 implies #[trigger] blocked(mem, root, w, lev) == (
    blocked(before, root, w, lev) || (lev < depth + 1 && same_slot(w, vpn, lev))) by {
        assert(blocked(mid, root, w, lev) == (blocked(before, root, w, lev) || (lev < depth && same_slot(
            w,
            vpn,
            lev,
        ))));
    }
    assert forall|w: int, lev: int| 0 <= w && 0 <= lev <= 2 implies #[trigger] missing(mem, root, w, lev)
        == still_missing(missing(before, root, w, lev), w, lev, vpn, depth + 1) by {
        lemma_missing(mid, root, w, lev);
        lemma_missing(before, root, w, lev);
        assert(missing(mid, root, w, lev) == still_missing(missing(before, root, w, lev), w, lev, vpn, depth));
        if same_slot(w, vpn, depth) && lev > depth {
            assert(shared(w, vpn) > depth);
            lemma_path_shared(mid, root, w, vpn, depth + 1);
            lemma_path_stops(mid, root, w, depth + 1, lev);
        }
    }
}

/// Below a table that is there, only further tables can be missing.
proof fn lemma_missing_below(mem: Memory, root: int, vpn: int, depth: int, level: int)
    requires
        0 <= depth <= level <= 2,
        path(mem, root, vpn, depth) is Slot,
    ensures
        missing(mem, root, vpn, level) <= level - depth,
{
    reveal_with_fuel(path, 3);
}

/// Installing a leaf where the walk has been taken to.
proof fn lemma_occupied(mem: Memory, mid: Memory, before: Memory, root: int, vpn: int, level: int)
    requires
        0 <= vpn,
        0 <= level <= 2,
        reached(mid, before, root, vpn, level),
        forall|v: int, lev: int|
            0 <= v && 0 <= lev <= 2 ==> #[trigger] blocked(mem, root, v, lev) == (if same_slot(v, vpn, level)
                && lev >= level {
                true
            } else {
                blocked(mid, root, v, lev)
            }),
        forall|v: int, lev: int|
            0 <= v && 0 <= lev <= 2 && !(lev > level && same_slot(v, vpn, level)) ==> #[trigger] path(
                mem,
                root,
                v,
                lev,
            ) == path(mid, root, v, lev),
        forall|v: int, lev: int|
            0 <= v && level < lev <= 2 && same_slot(v, vpn, level) ==> #[trigger] path(mem, root, v, lev)
                == Path::Leaf(level),
    ensures
        occupied(mem, before, root, vpn, level),
{
    reveal(occupied);
    reveal(reached);
    assert forall|w: int, lev: int| 0 <= w && 0 <= lev <= 2 implies #[trigger] blocked(mem, root, w, lev) == (
    blocked(before, root, w, lev) || same_slot(
        w,
        vpn,
        if lev < level {
            lev
        } else {
            level
        },
    )) by {
        assert(blocked(mid, root, w, lev) == (blocked(before, root, w, lev) || (lev < level && same_slot(
            w,
            vpn,
            lev,
        ))));
    }
    assert forall|w: int, lev: int| 0 <= w && 0 <= lev <= 2 implies #[trigger] missing(mem, root, w, lev) == (
    if lev > level && same_slot(w, vpn, level) {
        0
    } else {
        still_missing(missing(before, root, w, lev), w, lev, vpn, level)
    }) by {
        assert(path(mem, root, w, lev) == path(mem, root, w, lev));
        assert(missing(mid, root, w, lev) == still_missing(missing(before, root, w, lev), w, lev, vpn, level));
    }
}

/// Installing a leaf where the walk has been taken to: the tree, the slots and
/// the mappings.
proof fn lemma_leaf(
    mem: Memory,
    mid: Memory,
    before: Memory,
    root: int,
    places: Map<int, Place>,
    t: int,
    vpn: int,
    level: int,
)
    requires
        tree(mid, root, places),
        0 <= vpn,
        0 <= level <= 2,
        path(mid, root, vpn, level) == Path::Slot(t),
        mem.allocator() == mid.allocator(),
        !entry_valid(mid.word(t, addr::table_index(vpn, level))),
        entry_valid(mem.word(t, addr::table_index(vpn, level))),
        level < 2 ==> entry_leaf(mem.word(t, addr::table_index(vpn, level))),
        forall|q: int, j: int|
            places.dom().contains(q) && 0 <= j < 512 && !(q == t && j == addr::table_index(vpn, level))
                ==> #[trigger] mem.word(q, j) == mid.word(q, j),
        reached(mid, before, root, vpn, level),
    ensures
        tree(mem, root, places),
        occupied(mem, before, root, vpn, level),
        forall|v: int|
            0 <= v ==> #[trigger] walk(mem, root, v) == (if same_slot(v, vpn, level) {
                Some((level, mem.word(t, addr::table_index(vpn, level))))
            } else {
                walk(mid, root, v)
            }),
{
    lemma_set_entry(mid, mem, root, places, t, vpn, level);
    lemma_occupied(mem, mid, before, root, vpn, level);
}

/// A page is mapped exactly if its 4 KiB slot is taken or it is below a leaf.
pub proof fn lemma_blocked_page(mem: Memory, root: int, vpn: int)
    requires
        0 <= vpn,
    ensures
        blocked(mem, root, vpn, 2) <==> walk(mem, root, vpn) is Some,
{
    reveal_with_fuel(path, 3);
}

/// Linking a fresh, empty table under an invalid entry changes no mapping.
proof fn lemma_graft(
    m0: Memory,
    m1: Memory,
    root: int,
    places: Map<int, Place>,
    t: int,
    vpn: int,
    level: int,
    f: int,
)
    requires
        m0.wf(),
        tree(m0, root, places),
        0 <= vpn,
        0 <= level < 2,
        path(m0, root, vpn, level) == Path::Slot(t),
        !entry_valid(m0.word(t, addr::table_index(vpn, level))),
        m1.grew(m0, Set::empty().insert(f)),
        0 <= f < 0x1000_0000_0000,
        m1.word(t, addr::table_index(vpn, level)) == make_entry(f, 1),
        forall|q: int, j: int|
            places.dom().contains(q) && 0 <= j < 512 && !(q == t && j == addr::table_index(vpn, level))
                ==> #[trigger] m1.word(q, j) == m0.word(q, j),
        m1.zeroed(f),
    ensures
        tree(m1, root, places.insert(f, below(places[t], addr::table_index(vpn, level)))),
        !places.dom().contains(f),
        path(m1, root, vpn, level + 1) == Path::Slot(f),
        forall|v: int| 0 <= v ==> #[trigger] walk(m1, root, v) == walk(m0, root, v),
        forall|v: int, lev: int|
            0 <= v && 0 <= lev <= 2 ==> #[trigger] path(m1, root, v, lev) == (if same_slot(v, vpn, level) && lev
                > level {
                if lev == level + 1 {
                    Path::Slot(f)
                } else {
                    Path::Absent(level + 1)
                }
            } else {
                path(m0, root, v, lev)
            }),
        forall|v: int, lev: int|
            0 <= v && 0 <= lev <= 2 ==> #[trigger] blocked(m1, root, v, lev) == (blocked(m0, root, v, lev) || (
            lev == level && same_slot(v, vpn, level))),
        forall|v: int, lev: int|
            0 <= v && 0 <= lev <= 2 ==> #[trigger] missing(m1, root, v, lev) == (if same_slot(v, vpn, level)
                && lev > level {
                lev - (level + 1)
            } else {
                missing(m0, root, v, lev)
            }),
{
    let i = addr::table_index(vpn, level);
    let p2 = places.insert(f, below(places[t], i));
    let w = make_entry(f, 1);
    assert(entry_pointer(w) && entry_ppn(w) == f);
    lemma_index(vpn, level);
    lemma_path(m0, root, places, vpn, level);
    assert(!places.dom().contains(f)) by {
        reveal(tree);
        assert(Set::<int>::empty().insert(f).contains(f));
        if places.dom().contains(f) {
            m0.lemma_owns_frame(f);
        }
    }
    assert(tree(m1, root, p2)) by {
        reveal(tree);
        assert forall|q: int, j: int|
            #![trigger m1.word(q, j)]
            p2.dom().contains(q) && p2[q].level < 2 && 0 <= j < 512 && entry_pointer(m1.word(q, j)) implies {
            &&& p2.dom().contains(entry_ppn(m1.word(q, j)))
            &&& p2[entry_ppn(m1.word(q, j))] == below(p2[q], j)
        } by {
            if q == f {
                assert(m1.word(f, j) == 0);
            } else if q == t && j == i {
            } else {
                assert(m1.word(q, j) == m0.word(q, j));
            }
        }
    }
    lemma_path_kept(m0, m1, root, places, t, i, vpn, level);
    assert(path(m1, root, vpn, level + 1) == Path::Slot(f));
    assert forall|v: int, lev: int| 0 <= v && 0 <= lev <= 2 implies #[trigger] path(m1, root, v, lev) == (
    if same_slot(v, vpn, level) && lev > level {
        if lev == level + 1 {
            Path::Slot(f)
        } else {
            Path::Absent(level + 1)
        }
    } else {
        path(m0, root, v, lev)
    }) by {
        if same_slot(v, vpn, level) {
            if lev > level {
                lemma_path_shared(m1, root, v, vpn, level + 1);
                lemma_index(v, level + 1);
                assert(m1.word(f, addr::table_index(v, level + 1)) == 0);
            } else {
                lemma_path_kept(m0, m1, root, places, t, i, v, lev);
            }
        } else {
            lemma_path_kept(m0, m1, root, places, t, i, v, lev);
        }
    }
    assert forall|v: int, lev: int| 0 <= v && 0 <= lev <= 2 implies #[trigger] blocked(m1, root, v, lev) == (
    blocked(m0, root, v, lev) || (lev == level && same_slot(v, vpn, level))) by {
        assert(path(m1, root, v, lev) == path(m1, root, v, lev));
        lemma_index(v, lev);
        lemma_path(m0, root, places, v, lev);
        if same_slot(v, vpn, level) {
            lemma_path_shared(m0, root, v, vpn, level);
            if lev > level {
                lemma_path_stops(m0, root, v, level + 1, lev);
                assert(m1.word(f, addr::table_index(v, lev)) == 0);
            }
        }
        match path(m0, root, v, lev) {
            Path::Slot(q) => {
                if q == t && addr::table_index(v, lev) == i {
                    assert(lev == level && same_slot(v, vpn, level));
                }
            },
            _ => {},
        }
    }
    assert forall|v: int, lev: int| 0 <= v && 0 <= lev <= 2 implies #[trigger] missing(m1, root, v, lev) == (
    if same_slot(v, vpn, level) && lev > level {
        lev - (level + 1)
    } else {
        missing(m0, root, v, lev)
    }) by {
        assert(path(m1, root, v, lev) == path(m1, root, v, lev));
    }
    assert forall|v: int| 0 <= v implies #[trigger] walk(m1, root, v) == walk(m0, root, v) by {
        if place_of(v, level) == places[t] && addr::table_index(v, level) == i {
            lemma_path_shared(m0, root, v, vpn, level);
            lemma_path_shared(m1, root, v, vpn, level + 1);
            lemma_path_stops(m0, root, v, level + 1, 2);
            lemma_index(v, level + 1);
            assert(m1.word(f, addr::table_index(v, level + 1)) == 0);
            if level == 0 {
                lemma_path_stops(m1, root, v, 2, 2);
                assert(path(m1, root, v, 2) == Path::Absent(1));
            }
        } else {
            lemma_walk_kept(m0, m1, root, places, t, i, v);
        }
    }
}

/// Changing an entry into one that does not name a table keeps the tree.
proof fn lemma_set_entry(
    m0: Memory,
    m1: Memory,
    root: int,
    places: Map<int, Place>,
    t: int,
    vpn: int,
    level: int,
)
    requires
        tree(m0, root, places),
        0 <= vpn,
        0 <= level <= 2,
        path(m0, root, vpn, level) == Path::Slot(t),
        m1.allocator() == m0.allocator(),
        level < 2 ==> !entry_pointer(m0.word(t, addr::table_index(vpn, level))) && !entry_pointer(
            m1.word(t, addr::table_index(vpn, level)),
        ),
        forall|q: int, j: int|
            places.dom().contains(q) && 0 <= j < 512 && !(q == t && j == addr::table_index(vpn, level))
                ==> #[trigger] m1.word(q, j) == m0.word(q, j),
    ensures
        tree(m1, root, places),
        forall|v: int|
            0 <= v ==> #[trigger] walk(m1, root, v) == (if same_slot(v, vpn, level) {
                let w = m1.word(t, addr::table_index(vpn, level));
                if entry_valid(w) {
                    Some((level, w))
                } else {
                    None
                }
            } else {
                walk(m0, root, v)
            }),
        forall|v: int, lev: int|
            0 <= v && 0 <= lev <= 2 && !(lev > level && same_slot(v, vpn, level)) ==> #[trigger] path(
                m1,
                root,
                v,
                lev,
            ) == path(m0, root, v, lev),
        forall|v: int, lev: int|
            0 <= v && level < lev <= 2 && same_slot(v, vpn, level) && entry_leaf(
                m1.word(t, addr::table_index(vpn, level)),
            ) ==> #[trigger] path(m1, root, v, lev) == Path::Leaf(level),
        forall|v: int|
            0 <= v && same_slot(v, vpn, level) ==> #[trigger] path(m1, root, v, level) == Path::Slot(t),
        forall|v: int, lev: int|
            0 <= v && 0 <= lev <= 2 && (level == 2 || entry_leaf(m1.word(t, addr::table_index(vpn, level))))
                ==> #[trigger] blocked(m1, root, v, lev) == (if same_slot(v, vpn, level) && lev >= level {
                entry_valid(m1.word(t, addr::table_index(vpn, level)))
            } else {
                blocked(m0, root, v, lev)
            }),
{
    let i = addr::table_index(vpn, level);
    lemma_index(vpn, level);
    lemma_path(m0, root, places, vpn, level);
    assert forall|v: int, lev: int|
        0 <= v && 0 <= lev <= 2 && !(lev > level && same_slot(v, vpn, level)) implies #[trigger] path(
        m1,
        root,
        v,
        lev,
    ) == path(m0, root, v, lev) by {
        lemma_path_kept(m0, m1, root, places, t, i, v, lev);
    }
    assert forall|v: int| 0 <= v && same_slot(v, vpn, level) implies #[trigger] path(m1, root, v, level)
        == Path::Slot(t) by {
        lemma_path_kept(m0, m1, root, places, t, i, v, level);
        lemma_path_shared(m0, root, v, vpn, level);
    }
    assert forall|v: int, lev: int|
        0 <= v && level < lev <= 2 && same_slot(v, vpn, level) && entry_leaf(
            m1.word(t, addr::table_index(vpn, level)),
        ) implies #[trigger] path(m1, root, v, lev) == Path::Leaf(level) by {
        assert(path(m1, root, v, level) == Path::Slot(t));
        lemma_path_stops(m1, root, v, level + 1, lev);
    }
    assert forall|v: int, lev: int|
        0 <= v && 0 <= lev <= 2 && (level == 2 || entry_leaf(m1.word(t, addr::table_index(vpn, level)))) implies
        #[trigger] blocked(m1, root, v, lev) == (if same_slot(v, vpn, level) && lev >= level {
        entry_valid(m1.word(t, addr::table_index(vpn, level)))
    } else {
        blocked(m0, root, v, lev)
    }) by {
        lemma_index(v, lev);
        lemma_path(m0, root, places, v, lev);
        if same_slot(v, vpn, level) && lev >= level {
            if lev == level {
                assert(path(m1, root, v, level) == Path::Slot(t));
            } else {
                assert(path(m1, root, v, lev) == Path::Leaf(level));
            }
        } else {
            assert(path(m1, root, v, lev) == path(m0, root, v, lev));
            match path(m0, root, v, lev) {
                Path::Slot(q) => {
                    if q == t && addr::table_index(v, lev) == i {
                        assert(lev == level && same_slot(v, vpn, level));
                    }
                },
                _ => {},
            }
        }
    }
    assert(tree(m1, root, places)) by {
        reveal(tree);
        assert forall|q: int, j: int|
            #![trigger m1.word(q, j)]
            places.dom().contains(q) && places[q].level < 2 && 0 <= j < 512 && entry_pointer(
                m1.word(q, j),
            ) implies {
            &&& places.dom().contains(entry_ppn(m1.word(q, j)))
            &&& places[entry_ppn(m1.word(q, j))] == below(places[q], j)
        } by {
            if q == t && j == i {
            } else {
                assert(m1.word(q, j) == m0.word(q, j));
            }
        }
    }
    lemma_path_kept(m0, m1, root, places, t, i, vpn, level);
    assert forall|v: int| 0 <= v implies #[trigger] walk(m1, root, v) == (if same_slot(v, vpn, level) {
        let w = m1.word(t, addr::table_index(vpn, level));
        if entry_valid(w) {
            Some((level, w))
        } else {
            None
        }
    } else {
        walk(m0, root, v)
    }) by {
        if place_of(v, level) == places[t] && addr::table_index(v, level) == i {
            assert(same_slot(v, vpn, level));
            lemma_path_shared(m1, root, v, vpn, level);
            if level < 2 {
                lemma_path_stops(m1, root, v, level + 1, 2);
            }
        } else {
            assert(!same_slot(v, vpn, level));
            lemma_walk_kept(m0, m1, root, places, t, i, v);
        }
    }
}

/// The same slots are taken and the same tables missing in both memories.
pub open spec fn alike(mem: Memory, before: Memory, root: int) -> bool {
    forall|w: int, lev: int|
        #![trigger blocked(mem, root, w, lev)]
        #![trigger missing(mem, root, w, lev)]
        0 <= w && 0 <= lev <= 2 ==> blocked(mem, root, w, lev) == blocked(before, root, w, lev) && missing(
            mem,
            root,
            w,
            lev,
        ) == missing(before, root, w, lev)
}

/// What a leaf does, seen from a memory in which the table was alike.
pub proof fn lemma_occupied_since(mem: Memory, mid: Memory, before: Memory, root: int, vpn: int, level: int)
    requires
        occupied(mem, mid, root, vpn, level),
        alike(mid, before, root),
    ensures
        occupied(mem, before, root, vpn, level),
{
    reveal(occupied);
    assert forall|w: int, lev: int| 0 <= w && 0 <= lev <= 2 implies #[trigger] blocked(mem, root, w, lev) == (
    blocked(before, root, w, lev) || same_slot(
        w,
        vpn,
        if lev < level {
            lev
        } else {
            level
        },
    )) by {
        assert(blocked(mid, root, w, lev) == blocked(before, root, w, lev));
    }
    assert forall|w: int, lev: int| 0 <= w && 0 <= lev <= 2 implies #[trigger] missing(mem, root, w, lev) == (
    if lev > level && same_slot(w, vpn, level) {
        0
    } else {
        still_missing(missing(before, root, w, lev), w, lev, vpn, level)
    }) by {
        assert(missing(mid, root, w, lev) == missing(before, root, w, lev));
    }
}

/// What interior tables do, seen between memories in which the table was alike.
pub proof fn lemma_reached_since(
    mem: Memory,
    late: Memory,
    mid: Memory,
    before: Memory,
    root: int,
    vpn: int,
    depth: int,
)
    requires
        alike(mem, late, root),
        reached(late, mid, root, vpn, depth),
        alike(mid, before, root),
    ensures
        reached(mem, before, root, vpn, depth),
{
    reveal(reached);
    assert forall|w: int, lev: int| 0 <= w && 0 <= lev <= 2 implies #[trigger] blocked(mem, root, w, lev) == (
    blocked(before, root, w, lev) || (lev < depth && same_slot(w, vpn, lev))) by {
        assert(blocked(late, root, w, lev) == blocked(late, root, w, lev));
        assert(blocked(mid, root, w, lev) == blocked(before, root, w, lev));
    }
    assert forall|w: int, lev: int| 0 <= w && 0 <= lev <= 2 implies #[trigger] missing(mem, root, w, lev)
        == still_missing(missing(before, root, w, lev), w, lev, vpn, depth) by {
        assert(missing(late, root, w, lev) == missing(late, root, w, lev));
        assert(missing(mid, root, w, lev) == missing(before, root, w, lev));
    }
}

/// What was done to a table on the way to a page: the interior tables down to
/// `level` were put in place and, unless it was removed again, a leaf was
/// installed there.
pub struct Mark {
    /// The page.
    pub page: int,
    /// Level of the page's slot.
    pub level: int,
    /// Is there a leaf in the slot?
    pub leaf: bool,
}

/// A leaf for page `page` at `level`.
pub open spec fn leaf_at(page: int, level: int) -> Mark {
    Mark { page, level, leaf: true }
}

/// Interior tables on the way to page `page`, down to `level`.
pub open spec fn tables_to(page: int, level: int) -> Mark {
    Mark { page, level, leaf: false }
}

/// Does `m` take the slot of page `w` at `lev`: by an interior table, by its leaf,
/// or by a leaf that the page is below?
pub open spec fn takes(m: Mark, w: int, lev: int) -> bool {
    if lev < m.level {
        same_slot(w, m.page, lev)
    } else {
        m.leaf && same_slot(w, m.page, m.level)
    }
}

/// In a table with the history `marks`: is the slot of page `w` at `lev` taken, or
/// the page below a leaf?
pub open spec fn occupies(marks: Seq<Mark>, w: int, lev: int) -> bool {
    exists|k: int| 0 <= k < marks.len() && takes(#[trigger] marks[k], w, lev)
}

/// In a table with the history `marks`: how many interior tables are missing on the
/// way to the slot of page `w` at `lev`?
pub open spec fn lacking(marks: Seq<Mark>, w: int, lev: int) -> int
    decreases marks.len(),
{
    if marks.len() == 0 {
        lev
    } else {
        let m = marks.last();
        if m.leaf && lev > m.level && same_slot(w, m.page, m.level) {
            0
        } else {
            still_missing(lacking(marks.drop_last(), w, lev), w, lev, m.page, m.level)
        }
    }
}

/// Levels exist, and nothing is below a leaf or in its slot.
pub open spec fn tidy(marks: Seq<Mark>) -> bool {
    &&& forall|k: int| 0 <= k < marks.len() ==> 0 <= (#[trigger] marks[k]).level <= 2
    &&& forall|k: int, j: int|
        #![trigger marks[k], marks[j]]
        0 <= k < marks.len() && 0 <= j < marks.len() && j != k && marks[k].leaf ==> !takes(
            marks[j],
            marks[k].page,
            marks[k].level,
        )
}

/// `marks` with the leaves from the `n`th on, up to the `e`th, removed; the interior
/// tables stay.
pub open spec fn stripped(marks: Seq<Mark>, n: int, e: int) -> Seq<Mark> {
    Seq::new(
        marks.len(),
        |i: int|
            if n <= i < e {
                tables_to(marks[i].page, marks[i].level)
            } else {
                marks[i]
            },
    )
}

/// Below the first `tops` root entries, the table holds the tables and the taken
/// slots that the history `leaves` leads to.
#[verifier::opaque]
pub open spec fn shaped(mem: Memory, root: int, leaves: Seq<Mark>, tops: int) -> bool {
    &&& tidy(leaves)
    &&& forall|w: int, lev: int|
        #![trigger blocked(mem, root, w, lev)]
        #![trigger missing(mem, root, w, lev)]
        0 <= w && addr::table_index(w, 0) < tops && 0 <= lev <= 2 ==> blocked(mem, root, w, lev) == occupies(
            leaves,
            w,
            lev,
        ) && missing(mem, root, w, lev) == lacking(leaves, w, lev)
}

/// A table in shape, seen at one slot.
pub proof fn lemma_shape_at(mem: Memory, root: int, leaves: Seq<Mark>, tops: int, w: int, lev: int)
    requires
        shaped(mem, root, leaves, tops),
        0 <= w,
        addr::table_index(w, 0) < tops,
        0 <= lev <= 2,
    ensures
        blocked(mem, root, w, lev) == occupies(leaves, w, lev),
        missing(mem, root, w, lev) == lacking(leaves, w, lev),
{
    reveal(shaped);
}

/// The history of a table in shape is tidy.
pub proof fn lemma_shape_tidy(mem: Memory, root: int, leaves: Seq<Mark>, tops: int)
    requires
        shaped(mem, root, leaves, tops),
    ensures
        tidy(leaves),
{
    reveal(shaped);
}

/// A table that is alike has the same shape.
pub proof fn lemma_shape_alike(mem: Memory, before: Memory, root: int, leaves: Seq<Mark>, tops: int)
    requires
        shaped(before, root, leaves, tops),
        alike(mem, before, root),
    ensures
        shaped(mem, root, leaves, tops),
{
    lemma_shape_kept(before, mem, root, leaves, tops);
}

/// In shape below more root entries is in shape below fewer.
pub proof fn lemma_shape_fewer(mem: Memory, root: int, leaves: Seq<Mark>, tops: int)
    requires
        shaped(mem, root, leaves, tops),
        tops >= 256,
    ensures
        shaped(mem, root, leaves, 256),
{
    reveal(shaped);
}

/// One mark more takes what it takes.
pub proof fn lemma_occupies_push(marks: Seq<Mark>, m: Mark, w: int, lev: int)
    ensures
        occupies(marks.push(m), w, lev) == (occupies(marks, w, lev) || takes(m, w, lev)),
{
    let more = marks.push(m);
    if occupies(marks, w, lev) {
        let k = choose|k: int| 0 <= k < marks.len() && takes(#[trigger] marks[k], w, lev);
        assert(more[k] == marks[k]);
    }
    assert(more[marks.len() as int] == m);
    if occupies(more, w, lev) {
        let k = choose|k: int| 0 <= k < more.len() && takes(#[trigger] more[k], w, lev);
        if k < marks.len() {
            assert(marks[k] == more[k]);
        }
    }
}

/// What is put where nothing was keeps the history tidy.
proof fn lemma_tidy_push(marks: Seq<Mark>, m: Mark, lev: int)
    requires
        tidy(marks),
        0 <= m.level <= lev <= 2,
        m.leaf ==> m.level == lev,
        !occupies(marks, m.page, lev),
    ensures
        tidy(marks.push(m)),
{
    let more = marks.push(m);
    let n = marks.len() as int;
    assert forall|k: int, j: int|
        #![trigger more[k], more[j]]
        0 <= k < more.len() && 0 <= j < more.len() && j != k && more[k].leaf implies !takes(
        more[j],
        more[k].page,
        more[k].level,
    ) by {
        if k < n {
            assert(marks[k] == more[k]);
            assert(!takes(marks[k], m.page, lev));
        }
        if j < n {
            assert(marks[j] == more[j]);
            assert(!takes(marks[j], m.page, lev));
        }
    }
}

/// Installing one more leaf.
pub proof fn lemma_shape_install(
    mem: Memory,
    before: Memory,
    root: int,
    leaves: Seq<Mark>,
    tops: int,
    vpn: int,
    level: int,
)
    requires
        shaped(before, root, leaves, tops),
        occupied(mem, before, root, vpn, level),
        !blocked(before, root, vpn, level),
        0 <= vpn,
        addr::table_index(vpn, 0) < tops,
        0 <= level <= 2,
    ensures
        shaped(mem, root, leaves.push(leaf_at(vpn, level)), tops),
{
    reveal(occupied);
    reveal(shaped);
    let m = leaf_at(vpn, level);
    let more = leaves.push(m);
    assert(more.drop_last() =~= leaves);
    lemma_tidy_push(leaves, m, level);
    assert forall|w: int, lev: int|
        #![trigger blocked(mem, root, w, lev)]
        #![trigger missing(mem, root, w, lev)]
        0 <= w && addr::table_index(w, 0) < tops && 0 <= lev <= 2 implies blocked(mem, root, w, lev)
        == occupies(more, w, lev) && missing(mem, root, w, lev) == lacking(more, w, lev) by {
        assert(blocked(before, root, w, lev) == occupies(leaves, w, lev));
        assert(missing(before, root, w, lev) == lacking(leaves, w, lev));
        assert(missing(mem, root, w, lev) == missing(mem, root, w, lev));
        lemma_occupies_push(leaves, m, w, lev);
    }
}

/// Interior tables on the way to page `vpn`, down to `depth`, where the slot at
/// `level` was free.
pub proof fn lemma_shape_reached(
    mem: Memory,
    before: Memory,
    root: int,
    leaves: Seq<Mark>,
    tops: int,
    vpn: int,
    depth: int,
    level: int,
)
    requires
        shaped(before, root, leaves, tops),
        reached(mem, before, root, vpn, depth),
        !blocked(before, root, vpn, level),
        0 <= vpn,
        addr::table_index(vpn, 0) < tops,
        0 <= depth <= level <= 2,
    ensures
        shaped(mem, root, leaves.push(tables_to(vpn, depth)), tops),
{
    reveal(reached);
    reveal(shaped);
    let m = tables_to(vpn, depth);
    let more = leaves.push(m);
    assert(more.drop_last() =~= leaves);
    lemma_tidy_push(leaves, m, level);
    assert forall|w: int, lev: int|
        #![trigger blocked(mem, root, w, lev)]
        #![trigger missing(mem, root, w, lev)]
        0 <= w && addr::table_index(w, 0) < tops && 0 <= lev <= 2 implies blocked(mem, root, w, lev)
        == occupies(more, w, lev) && missing(mem, root, w, lev) == lacking(more, w, lev) by {
        assert(blocked(before, root, w, lev) == occupies(leaves, w, lev));
        assert(missing(before, root, w, lev) == lacking(leaves, w, lev));
        assert(missing(mem, root, w, lev) == missing(mem, root, w, lev));
        lemma_occupies_push(leaves, m, w, lev);
    }
}

/// `mem` is `before` with the leaf that maps page `vpn`, at `level`, removed: what
/// slots are taken, what tables are missing and what is mapped.
#[verifier::opaque]
pub open spec fn vacated(mem: Memory, before: Memory, root: int, vpn: int, level: int) -> bool {
    &&& forall|w: int|
        0 <= w ==> #[trigger] walk(mem, root, w) == (if same_slot(w, vpn, level) {
            None
        } else {
            walk(before, root, w)
        })
    &&& forall|w: int, lev: int|
        0 <= w && 0 <= lev <= 2 ==> #[trigger] blocked(mem, root, w, lev) == (blocked(before, root, w, lev) && !(
        lev >= level && same_slot(w, vpn, level)))
    &&& forall|w: int, lev: int|
        0 <= w && 0 <= lev <= 2 ==> #[trigger] missing(mem, root, w, lev) == (if lev > level && same_slot(
            w,
            vpn,
            level,
        ) {
            lev - level
        } else {
            missing(before, root, w, lev)
        })
}

/// What removing a leaf does to the mappings.
pub proof fn lemma_vacated(mem: Memory, before: Memory, root: int, vpn: int, level: int)
    requires
        vacated(mem, before, root, vpn, level),
    ensures
        forall|w: int|
            0 <= w ==> #[trigger] walk(mem, root, w) == (if same_slot(w, vpn, level) {
                None
            } else {
                walk(before, root, w)
            }),
{
    reveal(vacated);
}

/// Clearing the entry of a leaf.
proof fn lemma_clear_entry(
    m0: Memory,
    m1: Memory,
    root: int,
    places: Map<int, Place>,
    t: int,
    vpn: int,
    level: int,
)
    requires
        tree(m0, root, places),
        0 <= vpn,
        0 <= level <= 2,
        path(m0, root, vpn, level) == Path::Slot(t),
        m1.allocator() == m0.allocator(),
        level < 2 ==> entry_leaf(m0.word(t, addr::table_index(vpn, level))),
        entry_valid(m0.word(t, addr::table_index(vpn, level))),
        !entry_valid(m1.word(t, addr::table_index(vpn, level))),
        forall|q: int, j: int|
            places.dom().contains(q) && 0 <= j < 512 && !(q == t && j == addr::table_index(vpn, level))
                ==> #[trigger] m1.word(q, j) == m0.word(q, j),
    ensures
        tree(m1, root, places),
        vacated(m1, m0, root, vpn, level),
{
    reveal(vacated);
    lemma_set_entry(m0, m1, root, places, t, vpn, level);
    let i = addr::table_index(vpn, level);
    lemma_path(m0, root, places, vpn, level);
    assert forall|w: int, lev: int|
        #![trigger blocked(m1, root, w, lev)]
        #![trigger missing(m1, root, w, lev)]
        0 <= w && 0 <= lev <= 2 implies blocked(m1, root, w, lev) == (blocked(m0, root, w, lev) && !(lev >= level
        && same_slot(w, vpn, level))) && missing(m1, root, w, lev) == (if lev > level && same_slot(w, vpn, level) {
        lev - level
    } else {
        missing(m0, root, w, lev)
    }) by {
        lemma_index(w, lev);
        lemma_path(m0, root, places, w, lev);
        if same_slot(w, vpn, level) && lev >= level {
            assert(path(m1, root, w, level) == Path::Slot(t));
            if lev > level {
                assert(addr::table_index(w, level) == i);
                assert(path(m1, root, w, level + 1) == Path::Absent(level));
                lemma_path_stops(m1, root, w, level + 1, lev);
            } else {
                lemma_path_shared(m0, root, w, vpn, level);
            }
        } else {
            assert(path(m1, root, w, lev) == path(m0, root, w, lev));
            match path(m0, root, w, lev) {
                Path::Slot(q) => {
                    if q == t && addr::table_index(w, lev) == i {
                        assert(lev == level && same_slot(w, vpn, level));
                    }
                },
                _ => {},
            }
        }
    }
}

/// What a mark does not take, it does not cut short.
proof fn lemma_lacking_stripped(marks: Seq<Mark>, k: int, w: int, lev: int)
    requires
        0 <= k < marks.len(),
        !(lev > marks[k].level && same_slot(w, marks[k].page, marks[k].level)),
    ensures
        lacking(marks.update(k, tables_to(marks[k].page, marks[k].level)), w, lev) == lacking(marks, w, lev),
    decreases marks.len(),
{
    let less = marks.update(k, tables_to(marks[k].page, marks[k].level));
    if k == marks.len() - 1 {
        assert(less.drop_last() =~= marks.drop_last());
    } else {
        assert(less.drop_last() =~= marks.drop_last().update(k, tables_to(marks[k].page, marks[k].level)));
        lemma_lacking_stripped(marks.drop_last(), k, w, lev);
    }
}

/// With tables down to `c` and no further on the way to a slot, and no leaf above it.
pub proof fn lemma_lacking_exact(marks: Seq<Mark>, w: int, lev: int, c: int)
    requires
        0 <= c <= lev <= 2,
        forall|j: int|
            0 <= j < marks.len() ==> !((#[trigger] marks[j]).leaf && lev > marks[j].level && same_slot(
                w,
                marks[j].page,
                marks[j].level,
            )),
        forall|j: int| 0 <= j < marks.len() ==> shared(w, (#[trigger] marks[j]).page) <= c || marks[j].level <= c,
    ensures
        lev - c <= lacking(marks, w, lev) <= lev,
        (exists|k: int|
            0 <= k < marks.len() && shared(w, (#[trigger] marks[k]).page) >= c && marks[k].level >= c)
            ==> lacking(marks, w, lev) == lev - c,
    decreases marks.len(),
{
    if marks.len() > 0 {
        let less = marks.drop_last();
        assert forall|j: int| 0 <= j < less.len() implies !((#[trigger] less[j]).leaf && lev > less[j].level
            && same_slot(w, less[j].page, less[j].level)) by {
            assert(less[j] == marks[j]);
        }
        assert forall|j: int| 0 <= j < less.len() implies shared(w, (#[trigger] less[j]).page) <= c || less[j].level
            <= c by {
            assert(less[j] == marks[j]);
        }
        lemma_lacking_exact(less, w, lev, c);
        let m = marks[marks.len() - 1];
        assert(marks.last() == m);
        if exists|k: int| 0 <= k < marks.len() && shared(w, (#[trigger] marks[k]).page) >= c && marks[k].level >= c {
            let k = choose|k: int|
                0 <= k < marks.len() && shared(w, (#[trigger] marks[k]).page) >= c && marks[k].level >= c;
            if k < less.len() {
                assert(less[k] == marks[k]);
            }
        }
    }
}

/// Removing the leaf of one mark.
pub proof fn lemma_shape_vacated(
    mem: Memory,
    before: Memory,
    root: int,
    marks: Seq<Mark>,
    tops: int,
    k: int,
)
    requires
        shaped(before, root, marks, tops),
        0 <= k < marks.len(),
        marks[k].leaf,
        vacated(mem, before, root, marks[k].page, marks[k].level),
    ensures
        shaped(mem, root, marks.update(k, tables_to(marks[k].page, marks[k].level)), tops),
{
    reveal(vacated);
    reveal(shaped);
    let u = marks[k].page;
    let l = marks[k].level;
    let less = marks.update(k, tables_to(u, l));
    assert forall|i: int, j: int|
        #![trigger less[i], less[j]]
        0 <= i < less.len() && 0 <= j < less.len() && j != i && less[i].leaf implies !takes(
        less[j],
        less[i].page,
        less[i].level,
    ) by {
        assert(marks[i] == less[i]);
        assert(!takes(marks[j], marks[i].page, marks[i].level));
    }
    assert forall|w: int, lev: int|
        #![trigger blocked(mem, root, w, lev)]
        #![trigger missing(mem, root, w, lev)]
        0 <= w && addr::table_index(w, 0) < tops && 0 <= lev <= 2 implies blocked(mem, root, w, lev)
        == occupies(less, w, lev) && missing(mem, root, w, lev) == lacking(less, w, lev) by {
        assert(blocked(before, root, w, lev) == occupies(marks, w, lev));
        assert(missing(before, root, w, lev) == lacking(marks, w, lev));
        assert(missing(mem, root, w, lev) == missing(mem, root, w, lev));
        assert(blocked(mem, root, w, lev) == blocked(mem, root, w, lev));
        if occupies(less, w, lev) {
            let j = choose|j: int| 0 <= j < less.len() && takes(#[trigger] less[j], w, lev);
            assert(takes(marks[j], w, lev));
            if lev >= l && same_slot(w, u, l) {
                assert(j != k);
                assert(marks[j] == less[j]);
                assert(!takes(marks[j], u, l));
                assert(!takes(marks[k], marks[j].page, marks[j].level) || !marks[j].leaf);
            }
        }
        if occupies(marks, w, lev) && !(lev >= l && same_slot(w, u, l)) {
            let j = choose|j: int| 0 <= j < marks.len() && takes(#[trigger] marks[j], w, lev);
            assert(takes(less[j], w, lev));
        }
        if lev > l && same_slot(w, u, l) {
            assert forall|j: int| 0 <= j < less.len() implies !((#[trigger] less[j]).leaf && lev > less[j].level
                && same_slot(w, less[j].page, less[j].level)) by {
                if j != k {
                    assert(marks[j] == less[j]);
                    assert(!takes(marks[j], u, l));
                    assert(!takes(marks[k], marks[j].page, marks[j].level) || !marks[j].leaf);
                }
            }
            assert forall|j: int| 0 <= j < less.len() implies shared(w, (#[trigger] less[j]).page) <= l
                || less[j].level <= l by {
                if j != k {
                    assert(marks[j] == less[j]);
                    assert(!takes(marks[j], u, l));
                }
            }
            assert(shared(w, less[k].page) >= l && less[k].level == l);
            lemma_lacking_exact(less, w, lev, l);
        } else {
            lemma_lacking_stripped(marks, k, w, lev);
        }
    }
}

/// Walks that come out the same keep the shape.
pub proof fn lemma_shape_kept(m0: Memory, m1: Memory, root: int, leaves: Seq<Mark>, tops: int)
    requires
        shaped(m0, root, leaves, tops),
        forall|w: int, lev: int|
            #![trigger blocked(m1, root, w, lev)]
            #![trigger missing(m1, root, w, lev)]
            0 <= w && addr::table_index(w, 0) < tops && 0 <= lev <= 2 ==> blocked(m1, root, w, lev) == blocked(
                m0,
                root,
                w,
                lev,
            ) && missing(m1, root, w, lev) == missing(m0, root, w, lev),
    ensures
        shaped(m1, root, leaves, tops),
{
    reveal(shaped);
    assert forall|w: int, lev: int|
        #![trigger blocked(m1, root, w, lev)]
        #![trigger missing(m1, root, w, lev)]
        0 <= w && addr::table_index(w, 0) < tops && 0 <= lev <= 2 implies blocked(m1, root, w, lev)
        == occupies(leaves, w, lev) && missing(m1, root, w, lev) == lacking(leaves, w, lev) by {
        assert(blocked(m0, root, w, lev) == occupies(leaves, w, lev));
        assert(blocked(m1, root, w, lev) == blocked(m0, root, w, lev));
    }
}

/// How a request to map page `vpn` with a leaf at `level` is answered: the page
/// must not be mapped yet, nor its slot be taken, and there must be frames for
/// the interior tables that are missing.
pub open spec fn map_result(mem: Memory, root: int, vpn: int, level: int) -> Result<(), MapError> {
    if blocked(mem, root, vpn, level) {
        Err(MapError::AlreadyMapped)
    } else if missing(mem, root, vpn, level) > mem.free() {
        Err(MapError::OutOfMemory)
    } else {
        Ok(())
    }
}

/// The pages with the slot of `vpn` at `level` are mapped by entry `w`, if
/// `done`; every other page is mapped as before.
pub open spec fn mapped(
    mem: Memory,
    before: Memory,
    root: int,
    vpn: int,
    level: int,
    done: bool,
    w: u64,
) -> bool {
    forall|v: int|
        0 <= v ==> #[trigger] walk(mem, root, v) == (if done && same_slot(v, vpn, level) {
            Some((level, w))
        } else {
            walk(before, root, v)
        })
}

/// An Sv39 page table and every frame it owns.
pub struct PageTable {
    root: PhysPageNum,
    /// Root plus interior tables. Releasing these frees the whole tree; leaf
    /// *target* frames are owned by the caller, not by the table.
    frames: Vec<Frame>,
    /// The place of every table in the tree, shared ones included.
    places: Ghost<Map<int, Place>>,
}

impl PageTable {
    /// Frame number of the root table.
    pub closed spec fn spec_root(&self) -> int {
        self.root.0 as int
    }

    /// The tables of the tree: the table's own and those it shares.
    pub closed spec fn tables(&self) -> Set<int> {
        self.places@.dom()
    }

    /// Which root entry leads to table `t`, for tables below the root.
    pub closed spec fn top(&self, t: int) -> int {
        self.places@[t].i0
    }

    /// The frames that the table owns.
    pub closed spec fn own(&self) -> Set<int> {
        frame::ppns(self.frames@).to_set()
    }

    /// How many frames the table owns.
    pub closed spec fn spec_table_frames(&self) -> int {
        self.frames@.len() as int
    }

    /// The root and the tables below its entry `top`.
    pub open spec fn under(&self, top: int) -> Set<int> {
        Set::new(|t: int| self.tables().contains(t) && (t == self.spec_root() || self.top(t) == top))
    }

    /// The tables form a tree, and what is not the table's own is in the upper
    /// half.
    pub closed spec fn wf(&self, mem: Memory) -> bool {
        &&& tree(mem, self.root.0 as int, self.places@)
        &&& self.frames@.len() >= 1
        &&& frame::ppns(self.frames@).no_duplicates()
        &&& forall|j: int|
            0 <= j < self.frames@.len() ==> (#[trigger] self.frames@[j]).spec_order() == 0 && mem.owns(
                self.frames@[j].spec_ppn(),
                0,
            )
        &&& forall|t: int|
            #[trigger] self.places@.dom().contains(t) && (t == self.root.0 || self.places@[t].i0 < 256)
                ==> self.own().contains(t)
    }

    /// What well-formedness says of the parts that can be seen.
    pub proof fn lemma_wf(&self, mem: Memory)
        requires
            mem.wf(),
            self.wf(mem),
        ensures
            self.tables().contains(self.spec_root()),
            0 <= self.spec_root() < 0x400_0000,
            forall|t: int| #[trigger] self.tables().contains(t) ==> mem.owns(t, 0) && mem.used(t),
            forall|t: int| #[trigger] self.own().contains(t) ==> mem.owns(t, 0) && mem.used(t),
            forall|t: int|
                #[trigger] self.tables().contains(t) && (t == self.spec_root() || self.top(t) < 256)
                    ==> self.own().contains(t),
            self.own().finite(),
            self.own().len() == self.spec_table_frames(),
            self.spec_table_frames() >= 1,
    {
        reveal(tree);
        assert forall|t: int| #[trigger] self.tables().contains(t) implies mem.owns(t, 0) && mem.used(t) by {
            mem.lemma_owns_frame(t);
        }
        let s = frame::ppns(self.frames@);
        assert forall|t: int| #[trigger] self.own().contains(t) implies mem.owns(t, 0) && mem.used(t) by {
            let j = choose|j: int| 0 <= j < s.len() && s[j] == t;
            assert(self.frames@[j].spec_ppn() == t);
            mem.lemma_owns_frame(t);
        }
        s.unique_seq_to_set();
        vstd::seq_lib::seq_to_set_is_finite(s);
        mem.lemma_owns_frame(self.root.0 as int);
    }

    /// Is every table below the first `tops` root entries the table's own? So it
    /// is of the lower half in any case.
    pub open spec fn private(&self, tops: int) -> bool {
        &&& tops == 256 || tops == 512
        &&& tops == 512 ==> self.tables().subset_of(self.own())
    }

    /// Tables that can be touched are the table's own.
    pub proof fn lemma_private(&self, mem: Memory, tops: int, top: int)
        requires
            mem.wf(),
            self.wf(mem),
            self.private(tops),
            0 <= top < tops,
        ensures
            self.under(top).subset_of(self.own()),
    {
        self.lemma_wf(mem);
    }

    /// The table keeps its shape and its mappings while its own tables, and the
    /// ones it shares, stay as they are.
    pub proof fn lemma_kept(&self, m0: Memory, m1: Memory)
        requires
            m0.wf(),
            self.wf(m0),
            forall|t: int| #[trigger] self.tables().contains(t) ==> m1.owns(t, 0) && m1.same_frame(m0, t),
            forall|t: int| #[trigger] self.own().contains(t) ==> m1.owns(t, 0),
        ensures
            self.wf(m1),
            forall|v: int| 0 <= v ==> #[trigger] walk(m1, self.spec_root(), v) == walk(m0, self.spec_root(), v),
            alike(m1, m0, self.spec_root()),
            forall|leaves: Seq<Mark>, tops: int|
                shaped(m0, self.spec_root(), leaves, tops) ==> #[trigger] shaped(
                    m1,
                    self.spec_root(),
                    leaves,
                    tops,
                ),
    {
        let root = self.root.0 as int;
        let places = self.places@;
        assert(places.dom().contains(root)) by {
            reveal(tree);
        }
        assert forall|q: int, j: int| places.dom().contains(q) && 0 <= j < 512 implies #[trigger] m1.word(q, j)
            == m0.word(q, j) by {
            assert(self.tables().contains(q));
            assert(m1.same_frame(m0, q));
        }
        assert(tree(m1, root, places)) by {
            reveal(tree);
            assert forall|t: int| #[trigger] places.dom().contains(t) implies {
                &&& m1.owns(t, 0)
                &&& 0 <= places[t].level <= 2
                &&& places[t].level == 0 ==> t == root
            } by {
                assert(self.tables().contains(t));
            }
        }
        assert forall|v: int| 0 <= v implies #[trigger] walk(m1, root, v) == walk(m0, root, v) by {
            lemma_walk_kept(m0, m1, root, places, root, -1, v);
        }
        assert forall|w: int, lev: int|
            #![trigger blocked(m1, root, w, lev)]
            #![trigger missing(m1, root, w, lev)]
            0 <= w && 0 <= lev <= 2 implies blocked(m1, root, w, lev) == blocked(m0, root, w, lev) && missing(
            m1,
            root,
            w,
            lev,
        ) == missing(m0, root, w, lev) by {
            lemma_path_kept(m0, m1, root, places, root, -1, w, lev);
            lemma_path(m0, root, places, w, lev);
            lemma_index(w, lev);
        }
        assert forall|leaves: Seq<Mark>, tops: int| shaped(m0, root, leaves, tops) implies
            #[trigger] shaped(m1, root, leaves, tops) by {
            lemma_shape_kept(m0, m1, root, leaves, tops);
        }
        let s = frame::ppns(self.frames@);
        assert forall|j: int| 0 <= j < self.frames@.len() implies (#[trigger] self.frames@[j]).spec_order()
            == 0 && m1.owns(self.frames@[j].spec_ppn(), 0) by {
            assert(s[j] == self.frames@[j].spec_ppn());
            assert(self.own().contains(s[j]));
        }
    }

    /// `self` is `before` with some interior tables more, all below root entry
    /// `top`: they came out of the allocator, and no frame but the root and the
    /// tables below that entry was touched.
    pub open spec fn extends(&self, mem: Memory, before: PageTable, mem0: Memory, top: int) -> bool {
        let new = self.own().difference(before.own());
        &&& self.spec_root() == before.spec_root()
        &&& before.own().subset_of(self.own())
        &&& self.tables() == before.tables().union(new)
        &&& mem.grew(mem0, new)
        &&& mem.same_but(mem0, before.under(top))
        &&& forall|q: int| #[trigger] before.tables().contains(q) ==> self.top(q) == before.top(q)
        &&& forall|q: int| #[trigger] new.contains(q) ==> self.top(q) == top
    }

    /// Build an empty table: a single zeroed root frame.
    pub fn new(mem: &mut Memory) -> (r: Option<PageTable>)
        requires
            old(mem).wf(),
        ensures
            final(mem).wf(),
            r is Some <==> old(mem).free() > 0,
            r is None ==> *final(mem) == *old(mem),
            r matches Some(t) ==> {
                &&& t.wf(*final(mem))
                &&& t.tables() == Set::<int>::empty().insert(t.spec_root())
                &&& t.own() == t.tables()
                &&& final(mem).grew(*old(mem), t.own())
                &&& final(mem).drew(*old(mem))
                &&& final(mem).same_but(*old(mem), Set::empty())
                &&& forall|v: int| 0 <= v ==> #[trigger] walk(*final(mem), t.spec_root(), v) is None
                &&& shaped(*final(mem), t.spec_root(), Seq::empty(), 512)
            },
    {
        let ghost m0 = *mem;
        match Frame::allocate(mem) {
            None => None,
            Some(frame) => {
                let root: PhysPageNum = frame.ppn();
                let ghost fr = frame;
                let mut frames: Vec<Frame> = Vec::new();
                proof {
                    frame::lemma_ppns_push(frames@, fr);
                }
                frames.push(frame);
                let r = PageTable {
                    root,
                    frames,
                    places: Ghost(Map::empty().insert(root.0 as int, Place { level: 0, i0: 0, i1: 0 })),
                };
                proof {
                    mem.lemma_grew_one(m0, root.0 as int);
                    mem.lemma_drew_one(m0, root.0 as int);
                    assert(tree(*mem, root.0 as int, r.places@)) by {
                        reveal(tree);
                    }
                    assert(frame::ppns(r.frames@) =~= seq![root.0 as int]);
                    assert(r.own() =~= Set::<int>::empty().insert(root.0 as int)) by {
                        assert(frame::ppns(Seq::<Frame>::empty()).to_set() =~= Set::<int>::empty());
                    }
                    assert(r.tables() =~= Set::<int>::empty().insert(root.0 as int));
                    assert forall|v: int| 0 <= v implies #[trigger] walk(*mem, r.spec_root(), v) is None by {
                        lemma_index(v, 0);
                        assert(mem.word(root.0 as int, addr::table_index(v, 0)) == 0);
                        assert(path(*mem, r.spec_root(), v, 0) == Path::Slot(r.spec_root()));
                        assert(path(*mem, r.spec_root(), v, 1) == Path::Absent(0));
                    }
                    assert(shaped(*mem, r.spec_root(), Seq::empty(), 512)) by {
                        reveal(shaped);
                        assert forall|w: int, lev: int|
                            #![trigger blocked(*mem, r.spec_root(), w, lev)]
                            #![trigger missing(*mem, r.spec_root(), w, lev)]
                            0 <= w && addr::table_index(w, 0) < 512 && 0 <= lev <= 2 implies blocked(
                            *mem,
                            r.spec_root(),
                            w,
                            lev,
                        ) == occupies(Seq::empty(), w, lev) && missing(*mem, r.spec_root(), w, lev)
                            == lacking(Seq::empty(), w, lev) by {
                            lemma_index(w, 0);
                            assert(mem.word(root.0 as int, addr::table_index(w, 0)) == 0);
                            reveal_with_fuel(path, 3);
                        }
                    }
                }
                Some(r)
            },
        }
    }

    /// Frame number of the root table.
    pub fn root(&self) -> (r: PhysPageNum)
        ensures
            r.0 == self.spec_root(),
    {
        self.root
    }

    /// Value to load into `satp`: Sv39 mode in the top nibble plus the root PPN.
    pub fn token(&self, mem: &Memory) -> (r: u64)
        requires
            mem.wf(),
            self.wf(*mem),
        ensures
            r == 0x8000_0000_0000_0000 + self.spec_root(),
    {
        proof {
            self.lemma_wf(*mem);
            lemma_token(self.root.0);
        }
        (8u64 << 60) | self.root.0
    }

    /// Number of frames this table occupies, root and interior included.
    pub fn table_frames(&self) -> (r: usize)
        ensures
            r == self.spec_table_frames(),
    {
        self.frames.len()
    }

    /// Page-size granularity of a leaf installed at each level: 1 GiB, 2 MiB,
    /// 4 KiB.
    pub fn level_page_size(level: usize) -> (r: u64)
        requires
            level < SV39_LEVELS,
        ensures
            r == level_pages(level as int) * PAGE_SIZE,
    {
        if level == 0 {
            PTE_PER_TABLE * PTE_PER_TABLE * PAGE_SIZE
        } else if level == 1 {
            PTE_PER_TABLE * PAGE_SIZE
        } else {
            PAGE_SIZE
        }
    }

    /// Walk to the table that has `vpn`'s slot at `stop_level`, allocating
    /// interior tables as needed. `stop_level` 2 stands for a 4 KiB slot, 1 for a
    /// 2 MiB slot, 0 for a 1 GiB slot. A leaf above that level ends the walk: the
    /// page is mapped already.
    #[verifier::rlimit(60)]
    fn walk_create_to(&mut self, mem: &mut Memory, vpn: VirtPageNum, stop_level: usize) -> (r: Result<
        PhysPageNum,
        MapError,
    >)
        requires
            old(mem).wf(),
            old(self).wf(*old(mem)),
            stop_level < SV39_LEVELS,
        ensures
            final(mem).wf(),
            final(self).wf(*final(mem)),
            final(self).extends(
                *final(mem),
                *old(self),
                *old(mem),
                addr::table_index(vpn.0 as int, 0),
            ),
            final(mem).drew(*old(mem)),
            forall|v: int|
                0 <= v ==> #[trigger] walk(*final(mem), old(self).spec_root(), v) == walk(
                    *old(mem),
                    old(self).spec_root(),
                    v,
                ),
            r matches Ok(t) ==> path(
                *final(mem),
                old(self).spec_root(),
                vpn.0 as int,
                stop_level as int,
            ) == Path::Slot(t.0 as int),
            r is Ok ==> reached(
                *final(mem),
                *old(mem),
                old(self).spec_root(),
                vpn.0 as int,
                stop_level as int,
            ),
            match path(*old(mem), old(self).spec_root(), vpn.0 as int, stop_level as int) {
                Path::Slot(t) => r matches Ok(p) && p.0 == t && *final(self) == *old(self) && *final(mem)
                    == *old(mem),
                Path::Leaf(_) => r == Err::<PhysPageNum, MapError>(MapError::AlreadyMapped) && *final(self)
                    == *old(self) && *final(mem) == *old(mem),
                Path::Absent(l) => if old(mem).free() >= stop_level - l {
                    &&& r matches Ok(t)
                    &&& final(mem).free() == old(mem).free() - (stop_level - l)
                    &&& final(mem).zeroed(t.0 as int)
                } else {
                    &&& r == Err::<PhysPageNum, MapError>(MapError::OutOfMemory)
                    &&& final(mem).free() == 0
                    &&& old(mem).free() == 0 ==> *final(self) == *old(self) && *final(mem) == *old(mem)
                    &&& reached(
                        *final(mem),
                        *old(mem),
                        old(self).spec_root(),
                        vpn.0 as int,
                        l + old(mem).free(),
                    )
                },
            },
    {
        let ghost t0 = *self;
        let ghost m0 = *mem;
        let ghost root = self.root.0 as int;
        let ghost v0 = vpn.0 as int;
        let ghost top = addr::table_index(v0, 0);
        let ghost stop = stop_level as int;
        let indices = vpn.indices();
        let mut ppn: PhysPageNum = self.root;
        let mut level: usize = 0;
        let ghost mut made: int = 0;
        proof {
            self.lemma_extends_none(m0, top);
            lemma_reached_none(m0, root, v0);
            m0.lemma_drew_none(m0);
        }
        while level < stop_level
            invariant
                level <= stop_level <= 2,
                stop == stop_level,
                v0 == vpn.0,
                top == addr::table_index(v0, 0),
                root == t0.root.0,
                t0 == *old(self),
                m0 == *old(mem),
                forall|l: int| 0 <= l < 3 ==> #[trigger] indices@[l] == addr::table_index(v0, l),
                m0.wf(),
                t0.wf(m0),
                mem.wf(),
                self.wf(*mem),
                self.root == t0.root,
                self.extends(*mem, t0, m0, top),
                path(*mem, root, v0, level as int) == Path::Slot(ppn.0 as int),
                forall|v: int| 0 <= v ==> #[trigger] walk(*mem, root, v) == walk(m0, root, v),
                reached(*mem, m0, root, v0, level as int),
                mem.free() == m0.free() - made,
                mem.drew(m0),
                made == 0 ==> *self == t0 && *mem == m0,
                made > 0 ==> made <= level && mem.zeroed(ppn.0 as int) && path(m0, root, v0, stop)
                    == Path::Absent(level - made),
            decreases stop_level - level,
        {
            let ghost k = level as int;
            let ghost t1 = *self;
            let ghost m1 = *mem;
            let ghost t = ppn.0 as int;
            proof {
                lemma_index(v0, k);
                lemma_path(m1, root, self.places@, v0, k);
                m1.lemma_owns_frame(t);
                m1.lemma_free();
                assert(indices@[k] == addr::table_index(v0, k));
                if made == 0 {
                    lemma_path_stops(m0, root, v0, k + 1, stop);
                } else {
                    assert(m1.word(t, addr::table_index(v0, k)) == 0);
                }
            }
            let index: u64 = indices[level];
            let mut pte: Pte = Pte(mem.read(ppn, index));
            if pte.is_valid() {
                if pte.is_leaf() {
                    return Err(MapError::AlreadyMapped);
                }
                proof {
                    lemma_reached_further(*mem, m0, root, v0, k, t);
                }
            } else {
                match Frame::allocate(mem) {
                    None => {
                        return Err(MapError::OutOfMemory);
                    },
                    Some(frame) => {
                        let ghost m2 = *mem;
                        let ghost f = frame.spec_ppn();
                        proof {
                            m2.lemma_owns_frame(f);
                            m2.lemma_grew_one(m1, f);
                            m2.lemma_drew_one(m1, f);
                            frame::lemma_ppns_push(self.frames@, frame);
                            lemma_flag_bits(0);
                            assert(!m1.used(f));
                            assert(m2.same_frame(m1, t));
                        }
                        // An interior entry carries no permission bits: R/W/X all
                        // clear is exactly what marks it as a pointer rather than
                        // a leaf.
                        pte = Pte::new(frame.ppn(), PteFlags(PteFlags::VALID));
                        mem.write(ppn, index, pte.0);
                        self.frames.push(frame);
                        self.places = Ghost(
                            t1.places@.insert(f, below(t1.places@[t], addr::table_index(v0, k))),
                        );
                        proof {
                            assert forall|q: int, j: int|
                                t1.places@.dom().contains(q) && 0 <= j < 512 && !(q == t && j
                                    == addr::table_index(v0, k)) implies #[trigger] mem.word(q, j)
                                == m1.word(q, j) by {
                                reveal(tree);
                                m1.lemma_owns_frame(q);
                                assert(m2.same_frame(m1, q));
                            }
                            lemma_graft(m1, *mem, root, t1.places@, t, v0, k, f);
                            assert(reached(*mem, m0, root, v0, k + 1)) by {
                                lemma_reached_graft(*mem, m1, m0, root, v0, k);
                            }
                            self.lemma_grafted(*mem, t1, m1, m2, t0, m0, t, index as int, k, f, v0);
                            mem.lemma_drew_none(m2);
                            mem.lemma_drew_twice(m2, m1);
                            mem.lemma_drew_twice(m1, m0);
                            made = made + 1;
                        }
                    },
                }
            }
            ppn = pte.ppn();
            level = level + 1;
        }
        proof {
            mem.lemma_free();
        }
        Ok(ppn)
    }

    /// Map `vpn` to `ppn` with `flags`.
    ///
    /// `VALID` is implied. `ACCESSED`/`DIRTY` are set eagerly because not every
    /// implementation updates them in hardware, and a cleared bit faults.
    pub fn map(&mut self, mem: &mut Memory, vpn: VirtPageNum, ppn: PhysPageNum, flags: PteFlags) -> (r: Result<
        (),
        MapError,
    >)
        requires
            old(mem).wf(),
            old(self).wf(*old(mem)),
            ppn.0 < 0x1000_0000_0000,
            flags.0 <= Pte::FLAG_MASK,
        ensures
            final(mem).wf(),
            final(self).wf(*final(mem)),
            final(self).extends(
                *final(mem),
                *old(self),
                *old(mem),
                addr::table_index(vpn.0 as int, 0),
            ),
            final(mem).drew(*old(mem)),
            map_result(*old(mem), old(self).spec_root(), vpn.0 as int, 2) == r,
            mapped(
                *final(mem),
                *old(mem),
                old(self).spec_root(),
                vpn.0 as int,
                2,
                r is Ok,
                make_entry(ppn.0 as int, installed(flags.0)),
            ),
            r is Ok ==> occupied(*final(mem), *old(mem), old(self).spec_root(), vpn.0 as int, 2),
            r is Ok ==> final(mem).free() == old(mem).free() - missing(
                *old(mem),
                old(self).spec_root(),
                vpn.0 as int,
                2,
            ),
            r == Err::<(), MapError>(MapError::AlreadyMapped) ==> *final(self) == *old(self) && *final(mem)
                == *old(mem),
            r == Err::<(), MapError>(MapError::OutOfMemory) ==> final(mem).free() == 0 && reached(
                *final(mem),
                *old(mem),
                old(self).spec_root(),
                vpn.0 as int,
                2 - missing(*old(mem), old(self).spec_root(), vpn.0 as int, 2) + old(mem).free(),
            ),
            r is Err && old(mem).free() == 0 ==> *final(self) == *old(self) && *final(mem) == *old(mem),
    {
        self.map_at_level(mem, vpn, ppn, flags, 2)
    }

    /// Map a leaf at an arbitrary level, creating a superpage when `level < 2`.
    ///
    /// A leaf above the bottom level covers 2 MiB (level 1) or 1 GiB (level 0)
    /// in a single entry; the hardware requires the physical frame to be aligned
    /// to the same size.
    pub fn map_at_level(
        &mut self,
        mem: &mut Memory,
        vpn: VirtPageNum,
        ppn: PhysPageNum,
        flags: PteFlags,
        level: usize,
    ) -> (r: Result<(), MapError>)
        requires
            old(mem).wf(),
            old(self).wf(*old(mem)),
            ppn.0 < 0x1000_0000_0000,
            flags.0 <= Pte::FLAG_MASK,
            level < SV39_LEVELS,
            vpn.0 as int % level_pages(level as int) == 0,
            ppn.0 as int % level_pages(level as int) == 0,
            level < 2 ==> flags.0 & 14 != 0,
        ensures
            final(mem).wf(),
            final(self).wf(*final(mem)),
            final(self).extends(
                *final(mem),
                *old(self),
                *old(mem),
                addr::table_index(vpn.0 as int, 0),
            ),
            final(mem).drew(*old(mem)),
            map_result(*old(mem), old(self).spec_root(), vpn.0 as int, level as int) == r,
            mapped(
                *final(mem),
                *old(mem),
                old(self).spec_root(),
                vpn.0 as int,
                level as int,
                r is Ok,
                make_entry(ppn.0 as int, installed(flags.0)),
            ),
            r is Ok ==> occupied(
                *final(mem),
                *old(mem),
                old(self).spec_root(),
                vpn.0 as int,
                level as int,
            ),
            r is Ok ==> final(mem).free() == old(mem).free() - missing(
                *old(mem),
                old(self).spec_root(),
                vpn.0 as int,
                level as int,
            ),
            r == Err::<(), MapError>(MapError::AlreadyMapped) ==> *final(self) == *old(self) && *final(mem)
                == *old(mem),
            r == Err::<(), MapError>(MapError::OutOfMemory) ==> final(mem).free() == 0 && reached(
                *final(mem),
                *old(mem),
                old(self).spec_root(),
                vpn.0 as int,
                level as int - missing(*old(mem), old(self).spec_root(), vpn.0 as int, level as int) + old(mem).free(),
            ),
            r is Err && old(mem).free() == 0 ==> *final(self) == *old(self) && *final(mem) == *old(mem),
    {
        let ghost t0 = *self;
        let ghost m0 = *mem;
        let ghost root = self.root.0 as int;
        let ghost v0 = vpn.0 as int;
        let ghost k = level as int;
        proof {
            m0.lemma_free();
            lemma_index(v0, k);
            lemma_path(m0, root, t0.places@, v0, k);
        }
        match self.walk_create_to(mem, vpn, level) {
            Err(e) => Err(e),
            Ok(t) => {
                let ghost m1 = *mem;
                proof {
                    lemma_path(m1, root, self.places@, v0, k);
                    m1.lemma_owns_frame(t.0 as int);
                }
                let indices = vpn.indices();
                assert(indices@[k] == addr::table_index(v0, k));
                let pte: Pte = Pte(mem.read(t, indices[level]));
                if pte.is_valid() {
                    return Err(MapError::AlreadyMapped);
                }
                proof {
                    lemma_installed(flags.0);
                    lemma_flag_bits(flags.0);
                }
                let new: Pte = Pte::new(
                    ppn,
                    flags | PteFlags(PteFlags::VALID) | PteFlags(PteFlags::ACCESSED) | PteFlags(
                        PteFlags::DIRTY,
                    ),
                );
                mem.write(t, indices[level], new.0);
                proof {
                    let w = new.0;
                    assert(entry_valid(w) && (k < 2 ==> entry_leaf(w)));
                    assert forall|q: int, j: int|
                        self.places@.dom().contains(q) && 0 <= j < 512 && !(q == t.0 && j
                            == addr::table_index(v0, k)) implies #[trigger] mem.word(q, j) == m1.word(q, j) by {
                        reveal(tree);
                        m1.lemma_owns_frame(q);
                    }
                    lemma_leaf(*mem, m1, m0, root, self.places@, t.0 as int, v0, k);
                    self.lemma_rewritten(*mem, m1, t0, m0, t.0 as int, v0, k);
                    mem.lemma_drew_none(m1);
                    mem.lemma_drew_twice(m1, m0);
                }
                Ok(())
            },
        }
    }

    /// Locate the table with `vpn`'s leaf slot without allocating.
    fn walk_ptr(&self, mem: &Memory, vpn: VirtPageNum) -> (r: Option<PhysPageNum>)
        requires
            mem.wf(),
            self.wf(*mem),
        ensures
            match path(*mem, self.spec_root(), vpn.0 as int, 2) {
                Path::Slot(t) => r matches Some(p) && p.0 == t && mem.used(t),
                _ => r is None,
            },
    {
        let ghost root = self.root.0 as int;
        let ghost v0 = vpn.0 as int;
        let indices = vpn.indices();
        let mut ppn: PhysPageNum = self.root;
        let mut level: usize = 0;
        while level < 2
            invariant
                level <= 2,
                v0 == vpn.0,
                root == self.root.0,
                forall|l: int| 0 <= l < 3 ==> #[trigger] indices@[l] == addr::table_index(v0, l),
                mem.wf(),
                self.wf(*mem),
                path(*mem, root, v0, level as int) == Path::Slot(ppn.0 as int),
            decreases 2 - level,
        {
            proof {
                lemma_index(v0, level as int);
                lemma_path(*mem, root, self.places@, v0, level as int);
                mem.lemma_owns_frame(ppn.0 as int);
                lemma_path_stops(*mem, root, v0, level as int + 1, 2);
                assert(indices@[level as int] == addr::table_index(v0, level as int));
            }
            let pte: Pte = Pte(mem.read(ppn, indices[level]));
            if !pte.is_valid() {
                return None;
            }
            if pte.is_leaf() {
                // A superpage.
                return None;
            }
            ppn = pte.ppn();
            level = level + 1;
        }
        proof {
            lemma_path(*mem, root, self.places@, v0, 2);
            mem.lemma_owns_frame(ppn.0 as int);
        }
        Some(ppn)
    }

    /// Read `vpn`'s leaf entry.
    fn walk_read(&self, mem: &Memory, vpn: VirtPageNum) -> (r: Option<Pte>)
        requires
            mem.wf(),
            self.wf(*mem),
        ensures
            match path(*mem, self.spec_root(), vpn.0 as int, 2) {
                Path::Slot(t) => r == Some(Pte(mem.word(t, addr::table_index(vpn.0 as int, 2)))),
                _ => r is None,
            },
    {
        match self.walk_ptr(mem, vpn) {
            None => None,
            Some(t) => {
                let indices = vpn.indices();
                assert(indices@[2] == addr::table_index(vpn.0 as int, 2));
                Some(Pte(mem.read(t, indices[2])))
            },
        }
    }

    /// Overwrite `vpn`'s leaf entry, whose table is `t`.
    fn walk_write(&mut self, mem: &mut Memory, vpn: VirtPageNum, t: PhysPageNum, pte: Pte)
        requires
            old(mem).wf(),
            old(self).wf(*old(mem)),
            path(*old(mem), old(self).spec_root(), vpn.0 as int, 2) == Path::Slot(t.0 as int),
        ensures
            *final(self) == *old(self),
            final(mem).wf(),
            final(self).wf(*final(mem)),
            final(mem).allocator() == old(mem).allocator(),
            final(mem).same_but(*old(mem), old(self).under(addr::table_index(vpn.0 as int, 0))),
            forall|v: int|
                0 <= v ==> #[trigger] walk(*final(mem), old(self).spec_root(), v) == (if same_slot(
                    v,
                    vpn.0 as int,
                    2,
                ) {
                    if entry_valid(pte.0) {
                        Some((2, pte.0))
                    } else {
                        None
                    }
                } else {
                    walk(*old(mem), old(self).spec_root(), v)
                }),
    {
        let ghost m0 = *mem;
        let ghost root = self.root.0 as int;
        let ghost v0 = vpn.0 as int;
        proof {
            lemma_index(v0, 2);
            lemma_path(m0, root, self.places@, v0, 2);
            m0.lemma_owns_frame(t.0 as int);
        }
        let indices = vpn.indices();
        assert(indices@[2] == addr::table_index(v0, 2));
        mem.write(t, indices[2], pte.0);
        proof {
            assert forall|q: int, j: int|
                self.places@.dom().contains(q) && 0 <= j < 512 && !(q == t.0 && j == addr::table_index(
                    v0,
                    2,
                )) implies #[trigger] mem.word(q, j) == m0.word(q, j) by {
                reveal(tree);
                m0.lemma_owns_frame(q);
            }
            lemma_set_entry(m0, *mem, root, self.places@, t.0 as int, v0, 2);
            self.lemma_extends_none(m0, addr::table_index(v0, 0));
            self.lemma_rewritten(*mem, m0, *self, m0, t.0 as int, v0, 2);
        }
    }

    /// Remove `vpn`'s mapping and return the frame it pointed at.
    ///
    /// The caller owns that frame afterwards and is responsible for freeing it.
    pub fn unmap(&mut self, mem: &mut Memory, vpn: VirtPageNum) -> (r: Result<PhysPageNum, MapError>)
        requires
            old(mem).wf(),
            old(self).wf(*old(mem)),
        ensures
            *final(self) == *old(self),
            final(mem).wf(),
            final(self).wf(*final(mem)),
            final(mem).allocator() == old(mem).allocator(),
            final(mem).same_but(*old(mem), old(self).under(addr::table_index(vpn.0 as int, 0))),
            match translation(*old(mem), old(self).spec_root(), vpn.0 as int) {
                Some(w) => r matches Ok(p) && p.0 == entry_ppn(w),
                None => r == Err::<PhysPageNum, MapError>(MapError::NotMapped) && *final(mem) == *old(mem),
            },
            forall|v: int|
                0 <= v ==> #[trigger] walk(*final(mem), old(self).spec_root(), v) == (if r is Ok && same_slot(
                    v,
                    vpn.0 as int,
                    2,
                ) {
                    None
                } else {
                    walk(*old(mem), old(self).spec_root(), v)
                }),
    {
        proof {
            lemma_path(*mem, self.root.0 as int, self.places@, vpn.0 as int, 2);
        }
        match self.walk_ptr(mem, vpn) {
            None => Err(MapError::NotMapped),
            Some(t) => {
                let indices = vpn.indices();
                assert(indices@[2] == addr::table_index(vpn.0 as int, 2));
                let pte: Pte = Pte(mem.read(t, indices[2]));
                if !pte.is_valid() {
                    return Err(MapError::NotMapped);
                }
                let ppn: PhysPageNum = pte.ppn();
                self.walk_write(mem, vpn, t, Pte(Pte::EMPTY));
                Ok(ppn)
            },
        }
    }

    /// Remove the leaf that maps `vpn`, of whatever level, and return its level.
    /// `None`, with nothing changed, if the page is not mapped.
    pub fn unmap_leaf(&mut self, mem: &mut Memory, vpn: VirtPageNum) -> (r: Option<usize>)
        requires
            old(mem).wf(),
            old(self).wf(*old(mem)),
        ensures
            *final(self) == *old(self),
            final(mem).wf(),
            final(self).wf(*final(mem)),
            final(mem).allocator() == old(mem).allocator(),
            final(mem).same_but(*old(mem), old(self).under(addr::table_index(vpn.0 as int, 0))),
            match walk(*old(mem), old(self).spec_root(), vpn.0 as int) {
                Some((l, w)) => r matches Some(k) && k == l && 0 <= l <= 2 && vacated(
                    *final(mem),
                    *old(mem),
                    old(self).spec_root(),
                    vpn.0 as int,
                    l,
                ),
                None => r is None && *final(mem) == *old(mem),
            },
    {
        let ghost m0 = *mem;
        let ghost root = self.root.0 as int;
        let ghost v0 = vpn.0 as int;
        let indices = vpn.indices();
        let mut ppn: PhysPageNum = self.root;
        let mut level: usize = 0;
        loop
            invariant
                level <= 2,
                v0 == vpn.0,
                root == self.root.0,
                *self == *old(self),
                *mem == m0,
                m0 == *old(mem),
                forall|l: int| 0 <= l < 3 ==> #[trigger] indices@[l] == addr::table_index(v0, l),
                mem.wf(),
                self.wf(*mem),
                path(m0, root, v0, level as int) == Path::Slot(ppn.0 as int),
            decreases 2 - level,
        {
            let ghost k = level as int;
            proof {
                lemma_index(v0, k);
                lemma_path(m0, root, self.places@, v0, k);
                m0.lemma_owns_frame(ppn.0 as int);
                if k < 2 {
                    lemma_path_stops(m0, root, v0, k + 1, 2);
                }
                assert(indices@[k] == addr::table_index(v0, k));
            }
            let pte: Pte = Pte(mem.read(ppn, indices[level]));
            if !pte.is_valid() {
                return None;
            }
            if level == 2 || pte.is_leaf() {
                mem.write(ppn, indices[level], Pte::EMPTY);
                proof {
                    let t = ppn.0 as int;
                    assert(walk(m0, root, v0) == Some((k, m0.word(t, addr::table_index(v0, k)))));
                    assert forall|q: int, j: int|
                        self.places@.dom().contains(q) && 0 <= j < 512 && !(q == t && j == addr::table_index(
                            v0,
                            k,
                        )) implies #[trigger] mem.word(q, j) == m0.word(q, j) by {
                        reveal(tree);
                        m0.lemma_owns_frame(q);
                    }
                    lemma_clear_entry(m0, *mem, root, self.places@, t, v0, k);
                    self.lemma_extends_none(m0, addr::table_index(v0, 0));
                    self.lemma_rewritten(*mem, m0, *self, m0, t, v0, k);
                }
                return Some(level);
            }
            ppn = pte.ppn();
            level = level + 1;
        }
    }

    /// Look up `vpn` without modifying anything.
    pub fn translate(&self, mem: &Memory, vpn: VirtPageNum) -> (r: Option<Pte>)
        requires
            mem.wf(),
            self.wf(*mem),
        ensures
            match translation(*mem, self.spec_root(), vpn.0 as int) {
                Some(w) => r == Some(Pte(w)),
                None => r is None,
            },
    {
        proof {
            lemma_path(*mem, self.root.0 as int, self.places@, vpn.0 as int, 2);
        }
        match self.walk_read(mem, vpn) {
            None => None,
            Some(pte) => if pte.is_valid() {
                Some(pte)
            } else {
                None
            },
        }
    }

    /// Resolve a full virtual address, preserving the page offset.
    pub fn translate_addr(&self, mem: &Memory, va: VirtAddr) -> (r: Option<PhysAddr>)
        requires
            mem.wf(),
            self.wf(*mem),
        ensures
            match translation(*mem, self.spec_root(), va.0 as int / 4096) {
                Some(w) => r matches Some(pa) && pa.0 == entry_ppn(w) * 4096 + va.0 % 4096,
                None => r is None,
            },
    {
        match self.translate(mem, va.vpn()) {
            None => None,
            Some(pte) => Some(PhysAddr(pte.ppn().base_addr().0 + va.page_offset())),
        }
    }

    /// Change the permissions of an existing mapping.
    pub fn protect(&mut self, mem: &mut Memory, vpn: VirtPageNum, flags: PteFlags) -> (r: Result<(), MapError>)
        requires
            old(mem).wf(),
            old(self).wf(*old(mem)),
            flags.0 <= Pte::FLAG_MASK,
        ensures
            *final(self) == *old(self),
            final(mem).wf(),
            final(self).wf(*final(mem)),
            final(mem).allocator() == old(mem).allocator(),
            final(mem).same_but(*old(mem), old(self).under(addr::table_index(vpn.0 as int, 0))),
            match translation(*old(mem), old(self).spec_root(), vpn.0 as int) {
                Some(w) => {
                    &&& r is Ok
                    &&& forall|v: int|
                        0 <= v ==> #[trigger] walk(*final(mem), old(self).spec_root(), v) == (if same_slot(
                            v,
                            vpn.0 as int,
                            2,
                        ) {
                            Some((2int, (w - w % 1024 + installed(flags.0)) as u64))
                        } else {
                            walk(*old(mem), old(self).spec_root(), v)
                        })
                },
                None => r == Err::<(), MapError>(MapError::NotMapped) && *final(mem) == *old(mem),
            },
    {
        proof {
            lemma_path(*mem, self.root.0 as int, self.places@, vpn.0 as int, 2);
            lemma_installed(flags.0);
            lemma_flag_bits(flags.0);
        }
        match self.walk_ptr(mem, vpn) {
            None => Err(MapError::NotMapped),
            Some(t) => {
                let indices = vpn.indices();
                assert(indices@[2] == addr::table_index(vpn.0 as int, 2));
                let mut pte: Pte = Pte(mem.read(t, indices[2]));
                if !pte.is_valid() {
                    return Err(MapError::NotMapped);
                }
                pte.set_flags(
                    flags | PteFlags(PteFlags::VALID) | PteFlags(PteFlags::ACCESSED) | PteFlags(
                        PteFlags::DIRTY,
                    ),
                );
                self.walk_write(mem, vpn, t, pte);
                Ok(())
            },
        }
    }

    /// Replace the leaf entry for `vpn`, for callers that edit it in place -- the
    /// copy-on-write fault handler, mainly -- and return what it was. `None`,
    /// with nothing changed, if the page has no mapping.
    pub fn entry_mut(&mut self, mem: &mut Memory, vpn: VirtPageNum, pte: Pte) -> (r: Option<Pte>)
        requires
            old(mem).wf(),
            old(self).wf(*old(mem)),
        ensures
            *final(self) == *old(self),
            final(mem).wf(),
            final(self).wf(*final(mem)),
            final(mem).allocator() == old(mem).allocator(),
            final(mem).same_but(*old(mem), old(self).under(addr::table_index(vpn.0 as int, 0))),
            match translation(*old(mem), old(self).spec_root(), vpn.0 as int) {
                Some(w) => {
                    &&& r == Some(Pte(w))
                    &&& forall|v: int|
                        0 <= v ==> #[trigger] walk(*final(mem), old(self).spec_root(), v) == (if same_slot(
                            v,
                            vpn.0 as int,
                            2,
                        ) {
                            if entry_valid(pte.0) {
                                Some((2int, pte.0))
                            } else {
                                None
                            }
                        } else {
                            walk(*old(mem), old(self).spec_root(), v)
                        })
                },
                None => r is None && *final(mem) == *old(mem),
            },
    {
        proof {
            lemma_path(*mem, self.root.0 as int, self.places@, vpn.0 as int, 2);
        }
        match self.walk_ptr(mem, vpn) {
            None => None,
            Some(t) => {
                let indices = vpn.indices();
                assert(indices@[2] == addr::table_index(vpn.0 as int, 2));
                let was: Pte = Pte(mem.read(t, indices[2]));
                if !was.is_valid() {
                    return None;
                }
                self.walk_write(mem, vpn, t, pte);
                Some(was)
            },
        }
    }

    /// Copy the upper-half root entries of `kernel` into this table.
    ///
    /// Sv39 root entry *i* covers 1 GiB, and entries 256 and above are the upper
    /// half -- the kernel. Sharing those entries rather than duplicating the
    /// mappings means every address space sees the same kernel at the same
    /// addresses. The interior tables below these entries are shared, not owned:
    /// releasing this table does not free them.
    pub fn share_upper_half(&mut self, mem: &mut Memory, kernel: &PageTable)
        requires
            old(mem).wf(),
            old(self).wf(*old(mem)),
            kernel.wf(*old(mem)),
            old(self).own().disjoint(kernel.tables()),
        ensures
            final(mem).wf(),
            final(self).wf(*final(mem)),
            kernel.wf(*final(mem)),
            final(self).spec_root() == old(self).spec_root(),
            final(self).own() == old(self).own(),
            final(self).tables().subset_of(old(self).own().union(kernel.tables())),
            final(mem).allocator() == old(mem).allocator(),
            final(mem).same_but(*old(mem), Set::empty().insert(old(self).spec_root())),
            forall|t: int|
                #[trigger] final(self).tables().contains(t) && !old(self).own().contains(t) ==> final(self).top(
                    t,
                ) >= 256,
            forall|v: int|
                0 <= v ==> #[trigger] walk(*final(mem), old(self).spec_root(), v) == (if addr::table_index(v, 0)
                    < 256 {
                    walk(*old(mem), old(self).spec_root(), v)
                } else {
                    walk(*old(mem), kernel.spec_root(), v)
                }),
            forall|leaves: Seq<Mark>|
                shaped(*old(mem), old(self).spec_root(), leaves, 256) ==> #[trigger] shaped(
                    *final(mem),
                    old(self).spec_root(),
                    leaves,
                    256,
                ),
            forall|v: int|
                0 <= v ==> #[trigger] walk(*final(mem), kernel.spec_root(), v) == walk(
                    *old(mem),
                    kernel.spec_root(),
                    v,
                ),
    {
        let ghost m0 = *mem;
        let ghost t0 = *self;
        let ghost root = self.root.0 as int;
        let ghost kroot = kernel.root.0 as int;
        let ghost pl = self.places@;
        let ghost kp = kernel.places@;
        proof {
            t0.lemma_wf(m0);
            kernel.lemma_wf(m0);
        }
        let mut i: u64 = PTE_PER_TABLE / 2;
        while i < PTE_PER_TABLE
            invariant
                256 <= i <= 512,
                mem.wf(),
                mem.allocator() == m0.allocator(),
                root == self.root.0,
                kroot == kernel.root.0,
                root != kroot,
                m0.used(root),
                m0.used(kroot),
                forall|q: int, j: int|
                    m0.used(q) && 0 <= j < 512 ==> #[trigger] mem.word(q, j) == (if q == root && 256 <= j < i {
                        m0.word(kroot, j)
                    } else {
                        m0.word(q, j)
                    }),
            decreases 512 - i,
        {
            let w: u64 = mem.read(kernel.root, i);
            mem.write(self.root, i, w);
            i = i + 1;
        }
        self.places = Ghost(shared_places(pl, kp, root));
        proof {
            let p2 = self.places@;
            lemma_shared_tree(m0, *mem, root, kroot, pl, kp);
            assert forall|leaves: Seq<Mark>| shaped(m0, root, leaves, 256) implies #[trigger] shaped(
                *mem,
                root,
                leaves,
                256,
            ) by {
                lemma_shape_kept(m0, *mem, root, leaves, 256);
            }
            assert forall|t: int| #[trigger] self.places@.dom().contains(t) && (t == self.root.0
                || self.places@[t].i0 < 256) implies self.own().contains(t) by {
                assert(t0.tables().contains(t));
            }
            assert forall|t: int| #[trigger] self.tables().contains(t) implies t0.own().union(
                kernel.tables(),
            ).contains(t) by {
                if !kernel.tables().contains(t) {
                    assert(t0.tables().contains(t));
                }
            }
            assert forall|t: int| #[trigger] kernel.tables().contains(t) implies mem.owns(t, 0) && mem.same_frame(
                m0,
                t,
            ) by {
                assert(t != root);
                assert(m0.used(t));
            }
            kernel.lemma_kept(m0, *mem);
        }
    }

    /// Return the root and every interior table of its own to the allocator.
    pub fn release(self, mem: &mut Memory)
        requires
            old(mem).wf(),
            self.wf(*old(mem)),
        ensures
            final(mem).wf(),
            final(mem).shrank(*old(mem), self.own()),
            final(mem).same_but(*old(mem), Set::empty()),
    {
        let ghost m0 = *mem;
        let ghost all = self.frames@;
        let mut frames = self.frames;
        let ghost mut done: Set<int> = Set::empty();
        proof {
            mem.lemma_grew_none(m0);
        }
        while frames.len() > 0
            invariant
                mem.wf(),
                frames@.len() <= all.len(),
                frames@ == all.take(frames@.len() as int),
                frame::ppns(all).no_duplicates(),
                forall|j: int|
                    0 <= j < all.len() ==> (#[trigger] all[j]).spec_order() == 0 && m0.owns(
                        all[j].spec_ppn(),
                        0,
                    ),
                forall|p: int|
                    #[trigger] done.contains(p) <==> exists|j: int|
                        frames@.len() <= j < all.len() && #[trigger] all[j].spec_ppn() == p,
                mem.shrank(m0, done),
                mem.same_but(m0, Set::empty()),
            decreases frames@.len(),
        {
            let ghost n = frames@.len() - 1;
            let ghost m1 = *mem;
            let ghost d1 = done;
            match frames.pop() {
                None => {},
                Some(frame) => {
                    let ghost p = frame.spec_ppn();
                    proof {
                        assert(frame == all[n]);
                        if d1.contains(p) {
                            let j = choose|j: int| n < j < all.len() && #[trigger] all[j].spec_ppn() == p;
                            assert(frame::ppns(all)[j] == frame::ppns(all)[n]);
                        }
                    }
                    frame.release(mem);
                    proof {
                        let one = Set::<int>::empty().insert(p);
                        mem.lemma_shrank_one(m1, p);
                        mem.lemma_shrank_twice(m1, m0, d1, one);
                        done = d1.union(one);
                        assert forall|q: int| #[trigger] done.contains(q) <==> exists|j: int|
                            n <= j < all.len() && #[trigger] all[j].spec_ppn() == q by {
                            if d1.contains(q) {
                                let j = choose|j: int| n < j < all.len() && #[trigger] all[j].spec_ppn() == q;
                                assert(all[j].spec_ppn() == q);
                            }
                            if q == p {
                                assert(all[n].spec_ppn() == q);
                            }
                            if exists|j: int| n <= j < all.len() && #[trigger] all[j].spec_ppn() == q {
                                let j = choose|j: int| n <= j < all.len() && #[trigger] all[j].spec_ppn() == q;
                                if j > n {
                                    assert(d1.contains(q));
                                }
                            }
                        }
                        assert forall|f: int| m0.used(f) && mem.used(f) implies #[trigger] mem.same_frame(
                            m0,
                            f,
                        ) by {
                            assert(m1.used(f));
                            assert(m1.same_frame(m0, f));
                            assert(mem.same_frame(m1, f));
                        }
                        assert(frames@ =~= all.take(n));
                    }
                },
            }
        }
        proof {
            let s = frame::ppns(all);
            assert forall|p: int| done.contains(p) <==> self.own().contains(p) by {
                if self.own().contains(p) {
                    let j = choose|j: int| 0 <= j < s.len() && s[j] == p;
                    assert(all[j].spec_ppn() == p);
                }
                if done.contains(p) {
                    let j = choose|j: int| 0 <= j < all.len() && #[trigger] all[j].spec_ppn() == p;
                    assert(s[j] == p);
                }
            }
            assert(done =~= self.own());
        }
    }

    /// An entry of a table below root entry `top`, or of the root, changed.
    proof fn lemma_rewritten(
        self,
        mem: Memory,
        m1: Memory,
        t0: PageTable,
        m0: Memory,
        t: int,
        vpn: int,
        level: int,
    )
        requires
            0 <= level <= 2,
            0 <= vpn,
            m0.wf(),
            m1.wf(),
            self.wf(m1),
            t0.wf(m0),
            self.extends(m1, t0, m0, addr::table_index(vpn, 0)),
            path(m1, self.root.0 as int, vpn, level) == Path::Slot(t),
            mem.allocator() == m1.allocator(),
            forall|q: int, j: int|
                m1.used(q) && 0 <= j < 512 && q != t ==> #[trigger] mem.word(q, j) == m1.word(q, j),
            tree(mem, self.root.0 as int, self.places@),
        ensures
            self.wf(mem),
            self.extends(mem, t0, m0, addr::table_index(vpn, 0)),
    {
        let top = addr::table_index(vpn, 0);
        let new = self.own().difference(t0.own());
        lemma_path(m1, self.root.0 as int, self.places@, vpn, level);
        assert forall|q: int| m0.used(q) && mem.used(q) && !t0.under(top).contains(q) implies
            #[trigger] mem.same_frame(m0, q) by {
            assert(m1.used(q));
            assert(m1.same_frame(m0, q));
            if q == t {
                assert(self.tables().contains(t));
                if t0.tables().contains(t) {
                    assert(t0.top(t) == self.top(t));
                    if t != t0.spec_root() {
                        assert(self.places@[t].level != 0) by {
                            reveal(tree);
                        }
                    }
                } else {
                    assert(new.contains(t));
                }
                assert(false);
            }
        }
    }

    /// Nothing was added.
    proof fn lemma_extends_none(self, mem: Memory, top: int)
        ensures
            self.extends(mem, self, mem, top),
    {
        assert(self.own().difference(self.own()) =~= Set::<int>::empty());
        assert(self.tables().union(Set::empty()) =~= self.tables());
        mem.lemma_grew_none(mem);
    }

    /// One more table was added below root entry `top`.
    proof fn lemma_grafted(
        self,
        mem: Memory,
        t1: PageTable,
        m1: Memory,
        m2: Memory,
        t0: PageTable,
        m0: Memory,
        t: int,
        index: int,
        level: int,
        f: int,
        vpn: int,
    )
        requires
            0 <= level < 2,
            m0.wf(),
            m1.wf(),
            t0.wf(m0),
            t1.wf(m1),
            t1.extends(m1, t0, m0, addr::table_index(vpn, 0)),
            t1.root == t0.root,
            self.root == t0.root,
            t1.places@.dom().contains(t),
            t1.places@[t] == place_of(vpn, level),
            index == addr::table_index(vpn, level),
            m2.grew(m1, Set::empty().insert(f)),
            m2.same_but(m1, Set::empty()),
            mem.allocator() == m2.allocator(),
            forall|q: int, j: int|
                m2.used(q) && 0 <= j < 512 && !(q == t && j == index) ==> #[trigger] mem.word(q, j) == m2.word(
                    q,
                    j,
                ),
            self.places@ == t1.places@.insert(f, below(t1.places@[t], index)),
            !t1.places@.dom().contains(f),
            exists|fr: Frame| fr.spec_ppn() == f && fr.spec_order() == 0 && self.frames@ == t1.frames@.push(fr),
            tree(mem, t0.root.0 as int, self.places@),
        ensures
            self.wf(mem),
            self.extends(mem, t0, m0, addr::table_index(vpn, 0)),
    {
        let fr = choose|fr: Frame|
            fr.spec_ppn() == f && fr.spec_order() == 0 && self.frames@ == t1.frames@.push(fr);
        let top = addr::table_index(vpn, 0);
        let one = Set::<int>::empty().insert(f);
        frame::lemma_ppns_push(t1.frames@, fr);
        t0.lemma_wf(m0);
        t1.lemma_wf(m1);
        assert(one.contains(f));
        assert(self.own() == t1.own().insert(f));
        assert(!t1.own().contains(f));
        let s1 = frame::ppns(t1.frames@);
        assert(!s1.contains(f)) by {
            if s1.contains(f) {
                assert(t1.own().contains(f));
            }
        }
        assert(frame::ppns(self.frames@).no_duplicates());
        let new1 = t1.own().difference(t0.own());
        let new = self.own().difference(t0.own());
        assert(!t0.own().contains(f)) by {
            if t0.own().contains(f) {
                assert(t1.own().contains(f));
            }
        }
        assert(new =~= new1.union(one));
        mem.lemma_grew_twice(m1, m0, new1, one);
        assert(self.tables() =~= t0.tables().union(new));
        assert forall|q: int| #[trigger] self.places@.dom().contains(q) && (q == self.root.0 || self.places@[q].i0
            < 256) implies self.own().contains(q) by {
            if q != f {
                assert(t1.places@.dom().contains(q));
            }
        }
        assert forall|j: int| 0 <= j < self.frames@.len() implies (#[trigger] self.frames@[j]).spec_order()
            == 0 && mem.owns(self.frames@[j].spec_ppn(), 0) by {
            if j < t1.frames@.len() {
                assert(self.frames@[j] == t1.frames@[j]);
                assert(m1.owns(t1.frames@[j].spec_ppn(), 0));
            }
        }
        assert forall|q: int| m0.used(q) && mem.used(q) && !t0.under(top).contains(q) implies
            #[trigger] mem.same_frame(m0, q) by {
            assert(m1.used(q));
            assert(m1.same_frame(m0, q));
            assert(m2.same_frame(m1, q));
            if q == t {
                if t0.tables().contains(t) {
                    assert(t0.top(t) == t1.top(t));
                    if t != t0.spec_root() {
                        assert(t1.places@[t].level != 0) by {
                            reveal(tree);
                        }
                    }
                } else {
                    assert(new1.contains(t));
                }
                assert(false);
            }
        }
        assert forall|q: int| #[trigger] t0.tables().contains(q) implies self.top(q) == t0.top(q) by {
            assert(t1.tables().contains(q));
            assert(q != f);
            assert(t1.top(q) == t0.top(q));
        }
        assert forall|q: int| #[trigger] new.contains(q) implies self.top(q) == top by {
            if q != f {
                assert(new1.contains(q));
                assert(t1.tables().contains(q));
            }
        }
    }
}

/// The places of a table that took over the upper half of another one.
spec fn shared_places(pl: Map<int, Place>, kp: Map<int, Place>, root: int) -> Map<int, Place> {
    Map::new(
        |t: int| (pl.dom().contains(t) && (t == root || pl[t].i0 < 256)) || upper_table(kp, t),
        |t: int|
            if upper_table(kp, t) {
                kp[t]
            } else {
                pl[t]
            },
    )
}

/// Is `t` a table below an upper-half entry of the root?
spec fn upper_table(places: Map<int, Place>, t: int) -> bool {
    places.dom().contains(t) && places[t].level >= 1 && places[t].i0 >= 256
}

/// Taking over the upper half of another table.
proof fn lemma_shared_tree(
    m0: Memory,
    m1: Memory,
    root: int,
    kroot: int,
    pl: Map<int, Place>,
    kp: Map<int, Place>,
)
    requires
        m0.wf(),
        tree(m0, root, pl),
        tree(m0, kroot, kp),
        m1.allocator() == m0.allocator(),
        forall|t: int| #[trigger] pl.dom().contains(t) && (t == root || pl[t].i0 < 256) ==> !kp.dom().contains(t),
        forall|q: int, j: int|
            m0.used(q) && 0 <= j < 512 ==> #[trigger] m1.word(q, j) == (if q == root && 256 <= j {
                m0.word(kroot, j)
            } else {
                m0.word(q, j)
            }),
    ensures
        tree(m1, root, shared_places(pl, kp, root)),
        forall|v: int|
            0 <= v ==> #[trigger] walk(m1, root, v) == (if addr::table_index(v, 0) < 256 {
                walk(m0, root, v)
            } else {
                walk(m0, kroot, v)
            }),
        forall|v: int, lev: int|
            #![trigger blocked(m1, root, v, lev)]
            #![trigger missing(m1, root, v, lev)]
            0 <= v && addr::table_index(v, 0) < 256 && 0 <= lev <= 2 ==> blocked(m1, root, v, lev) == blocked(
                m0,
                root,
                v,
                lev,
            ) && missing(m1, root, v, lev) == missing(m0, root, v, lev),
{
    let p2 = shared_places(pl, kp, root);
    reveal(tree);
    assert forall|t: int| #[trigger] pl.dom().contains(t) implies m0.used(t) by {
        m0.lemma_owns_frame(t);
    }
    assert forall|t: int| #[trigger] kp.dom().contains(t) implies m0.used(t) by {
        m0.lemma_owns_frame(t);
    }
    assert(!kp.dom().contains(root));
    assert forall|t: int, i: int|
        #![trigger m1.word(t, i)]
        p2.dom().contains(t) && p2[t].level < 2 && 0 <= i < 512 && entry_pointer(m1.word(t, i)) implies {
        &&& p2.dom().contains(entry_ppn(m1.word(t, i)))
        &&& p2[entry_ppn(m1.word(t, i))] == below(p2[t], i)
    } by {
        if upper_table(kp, t) {
            assert(t != root);
            assert(m1.word(t, i) == m0.word(t, i));
            assert(kp.dom().contains(entry_ppn(m0.word(t, i))));
        } else if t == root && i >= 256 {
            assert(m1.word(t, i) == m0.word(kroot, i));
            assert(kp.dom().contains(entry_ppn(m0.word(kroot, i))));
        } else {
            assert(m1.word(t, i) == m0.word(t, i));
            assert(pl.dom().contains(entry_ppn(m0.word(t, i))));
        }
    }
    assert forall|v: int, lev: int|
        #![trigger blocked(m1, root, v, lev)]
        #![trigger missing(m1, root, v, lev)]
        0 <= v && addr::table_index(v, 0) < 256 && 0 <= lev <= 2 implies blocked(m1, root, v, lev) == blocked(
        m0,
        root,
        v,
        lev,
    ) && missing(m1, root, v, lev) == missing(m0, root, v, lev) by {
        lemma_index(v, 0);
        lemma_index(v, 1);
        lemma_index(v, 2);
        reveal_with_fuel(path, 3);
        lemma_path(m0, root, pl, v, 1);
        lemma_path(m0, root, pl, v, 2);
        assert(m1.word(root, addr::table_index(v, 0)) == m0.word(root, addr::table_index(v, 0)));
    }
    assert forall|v: int| 0 <= v implies #[trigger] walk(m1, root, v) == (if addr::table_index(v, 0) < 256 {
        walk(m0, root, v)
    } else {
        walk(m0, kroot, v)
    }) by {
        lemma_index(v, 0);
        lemma_index(v, 1);
        lemma_index(v, 2);
        reveal_with_fuel(path, 3);
        if addr::table_index(v, 0) < 256 {
            lemma_path(m0, root, pl, v, 1);
            lemma_path(m0, root, pl, v, 2);
            assert(m1.word(root, addr::table_index(v, 0)) == m0.word(root, addr::table_index(v, 0)));
        } else {
            lemma_path(m0, kroot, kp, v, 1);
            lemma_path(m0, kroot, kp, v, 2);
            assert(m1.word(root, addr::table_index(v, 0)) == m0.word(kroot, addr::table_index(v, 0)));
        }
    }
}

proof fn lemma_token(root: u64)
    by (bit_vector)
    requires
        root < 0x1000_0000_0000,
    ensures
        (8u64 << 60) | root == 0x8000_0000_0000_0000 + root,
{
}

/// A leaf is at one of three levels.
pub proof fn lemma_walk_level(mem: Memory, root: int, vpn: int)
    requires
        walk(mem, root, vpn) is Some,
    ensures
        0 <= (walk(mem, root, vpn)->0).0 <= 2,
{
    reveal_with_fuel(path, 3);
}

/// Pages below the same leaf are mapped by it.
pub proof fn lemma_leaf_shared(mem: Memory, root: int, a: int, b: int)
    requires
        walk(mem, root, b) matches Some((l, x)) && same_slot(a, b, l),
    ensures
        walk(mem, root, a) == walk(mem, root, b),
{
    reveal_with_fuel(path, 3);
}

/// Pages with the same indices are mapped alike.
pub proof fn lemma_walk_shared(mem: Memory, root: int, a: int, b: int)
    requires
        same_slot(a, b, 2),
    ensures
        walk(mem, root, a) == walk(mem, root, b),
{
    reveal_with_fuel(path, 3);
}

/// What [`PageTable::map`] does [`PageTable::unmap`] undoes: after mapping, the
/// page resolves to its frame with the flags asked for and the accessed and
/// dirty bits set; after unmapping, every page is mapped as it was before.
pub proof fn law_unmap_undoes_map(
    m0: Memory,
    m1: Memory,
    m2: Memory,
    root: int,
    vpn: int,
    ppn: int,
    flags: u64,
)
    requires
        0 <= vpn,
        0 <= ppn < 0x1000_0000_0000,
        flags < 1024,
        map_result(m0, root, vpn, 2) is Ok,
        mapped(m1, m0, root, vpn, 2, true, make_entry(ppn, installed(flags))),
        forall|v: int|
            0 <= v ==> #[trigger] walk(m2, root, v) == (if same_slot(v, vpn, 2) {
                None
            } else {
                walk(m1, root, v)
            }),
    ensures
        translation(m1, root, vpn) matches Some(w) && entry_ppn(w) == ppn && entry_flags(w) == installed(flags)
            && installed(flags) & flags == flags && installed(flags) & 0xc1 == 0xc1,
        forall|v: int| 0 <= v ==> #[trigger] walk(m2, root, v) == walk(m0, root, v),
{
    lemma_installed(flags);
    lemma_blocked_page(m0, root, vpn);
    assert(walk(m1, root, vpn) == Some((2int, make_entry(ppn, installed(flags)))));
    assert forall|v: int| 0 <= v implies #[trigger] walk(m2, root, v) == walk(m0, root, v) by {
        if same_slot(v, vpn, 2) {
            lemma_walk_shared(m0, root, v, vpn);
        }
        assert(walk(m1, root, v) == walk(m1, root, v));
    }
}

/// A page that is mapped cannot be mapped again.
pub proof fn law_no_double_map(m0: Memory, m1: Memory, root: int, vpn: int, w: u64)
    requires
        0 <= vpn,
        map_result(m0, root, vpn, 2) is Ok,
        mapped(m1, m0, root, vpn, 2, true, w),
    ensures
        map_result(m1, root, vpn, 2) == Err::<(), MapError>(MapError::AlreadyMapped),
{
    assert(walk(m1, root, vpn) == Some((2int, w)));
    lemma_blocked_page(m1, root, vpn);
}

/// The bits of an entry: bit 0 says that it is valid, bits 1, 2 and 3 that it may be read,
/// written and executed, and one that is valid and has none of these leads to a table.
/// The page number is in bits 10 to 53.
pub proof fn law_entry_format(w: u64, ppn: int, flags: u64)
    requires
        0 <= ppn < 0x1000_0000_0000,
        flags < 1024,
    ensures
        entry_valid(w) == (w % 2 == 1),
        entry_leaf(w) == (w % 2 == 1 && ((w / 2) % 2 == 1 || (w / 4) % 2 == 1 || (w / 8) % 2 == 1)),
        entry_pointer(w) == (entry_valid(w) && !entry_leaf(w)),
        entry_ppn(make_entry(ppn, flags)) == ppn,
        entry_flags(make_entry(ppn, flags)) == flags,
        make_entry(ppn, flags) / 1024 == ppn,
        make_entry(ppn, flags) % 1024 == flags,
{
}

/// What is installed has the flags that were asked for, and is valid, accessed and dirty
/// (bits 0, 6 and 7) besides.
pub proof fn law_installed_flags(flags: u64, k: u64)
    requires
        flags < 1024,
        k < 64,
    ensures
        (installed(flags) >> k) % 2 == 1 <==> (flags >> k) % 2 == 1 || k == 0 || k == 6 || k == 7,
        installed(flags) < 1024,
{
    lemma_installed_bit(flags, k);
}

proof fn lemma_installed_bit(flags: u64, k: u64)
    by (bit_vector)
    requires
        flags < 1024,
        k < 64,
    ensures
        ((flags | 0xc1) >> k) % 2 == 1 <==> (flags >> k) % 2 == 1 || k == 0 || k == 6 || k == 7,
        (flags | 0xc1) < 1024,
{
}

/// How an address is looked up: from the root table by the top nine bits of the page
/// number, from the table that the entry there names by the middle nine, and from the next
/// by the last nine. An entry that is not valid ends the search without a result, and one
/// that may be read, written or executed is the result, also before the last table.
pub proof fn law_walk_follows_the_tables(mem: Memory, root: int, vpn: int)
    requires
        0 <= vpn,
    ensures
        ({
            let w0 = mem.word(root, (vpn / 0x4_0000) % 512);
            let w1 = mem.word((w0 as int / 1024) % 0x1000_0000_0000, (vpn / 512) % 512);
            let w2 = mem.word((w1 as int / 1024) % 0x1000_0000_0000, vpn % 512);
            walk(mem, root, vpn) == (if w0 % 2 == 0 {
                None
            } else if (w0 / 2) % 8 != 0 {
                Some((0int, w0))
            } else if w1 % 2 == 0 {
                None
            } else if (w1 / 2) % 8 != 0 {
                Some((1int, w1))
            } else if w2 % 2 == 0 {
                None
            } else {
                Some((2int, w2))
            })
        }),
{
    reveal_with_fuel(path, 4);
}

/// A page can be mapped exactly if nothing is mapped there and there are frames for the
/// tables that lack.
pub proof fn law_map_refuses_what_is_mapped(mem: Memory, root: int, vpn: int)
    requires
        0 <= vpn,
    ensures
        map_result(mem, root, vpn, 2) == Err::<(), MapError>(MapError::AlreadyMapped) <==> walk(mem, root, vpn) is Some,
        walk(mem, root, vpn) is None && mem.free() >= 2 ==> map_result(mem, root, vpn, 2) is Ok,
        walk(mem, root, vpn) is None && mem.free() < 0 ==> map_result(mem, root, vpn, 2) is Err,
{
    reveal_with_fuel(path, 4);
}

/// A page that is mapped is found, with the frame and the permissions that it was given,
/// and no other page is found otherwise than before.
pub proof fn law_mapped_page_is_found(
    m1: Memory,
    m0: Memory,
    root: int,
    vpn: int,
    ppn: int,
    flags: u64,
    v: int,
)
    requires
        0 <= vpn < 0x800_0000,
        0 <= v < 0x800_0000,
        0 <= ppn < 0x1000_0000_0000,
        flags < 1024,
        mapped(m1, m0, root, vpn, 2, true, make_entry(ppn, installed(flags))),
    ensures
        v != vpn ==> walk(m1, root, v) == walk(m0, root, v),
        walk(m1, root, vpn) matches Some((l, w)) && l == 2 && w / 1024 == ppn && w % 1024 == installed(flags),
{
    lemma_installed_bit(flags, 0);
    law_entry_format(0, ppn, installed(flags));
    assert(same_slot(vpn, vpn, 2));
    if same_slot(v, vpn, 2) {
        addr::law_indices_are_digits(v);
        addr::law_indices_are_digits(vpn);
    }
}

/// No more tables lack than there are levels.
pub proof fn lemma_lacking(marks: Seq<Mark>, w: int, lev: int)
    requires
        0 <= lev,
    ensures
        0 <= lacking(marks, w, lev) <= lev,
    decreases marks.len(),
{
    if marks.len() > 0 {
        lemma_lacking(marks.drop_last(), w, lev);
    }
}

} // verus!
