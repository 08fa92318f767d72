//! The kernel's own address space.
//!
//! It replaces the boot table, which maps everything RWX with 1 GiB leaves: fine
//! for the dozen instructions between enabling paging and getting here, and
//! unacceptable afterwards. The space built here gives each section exactly what
//! it needs, and nothing is both writable and executable.

use vstd::prelude::*;
use crate::config::{
    CLINT_BASE, DRAM_BASE, DRAM_SIZE, PAGE_SIZE, PLIC_BASE, TEST_DEVICE_BASE, UART_BASE, VIRTIO_MMIO_BASE,
    VIRTIO_MMIO_SLOTS, VIRTIO_MMIO_STRIDE, VIRT_OFFSET,
};
use crate::mm;
use crate::mm::addr::{self, VirtAddr};
use crate::mm::frame::Memory;
use crate::mm::page_table::{self, Mark, PteFlags};
use crate::mm::space::{self, AddressSpace, Backing, Region};

verus! {

/// Where the linker put the sections of the kernel image, as addresses in the
/// direct map.
pub struct KernelLayout {
    /// Start of `.text`.
    pub text_start: u64,
    /// End of `.text`.
    pub text_end: u64,
    /// Start of `.rodata`.
    pub rodata_start: u64,
    /// End of `.rodata`.
    pub rodata_end: u64,
    /// Start of `.data`.
    pub data_start: u64,
    /// End of `.data`.
    pub data_end: u64,
    /// Start of `.bss`.
    pub bss_start: u64,
    /// End of `.bss`.
    pub bss_end: u64,
    /// End of the image.
    pub kernel_end: u64,
}

/// A range of the direct map and the permissions it gets.
#[derive(Clone, Copy)]
pub struct Window {
    /// First address.
    pub start: u64,
    /// One past the last address.
    pub end: u64,
    /// Permissions.
    pub perm: u64,
}

impl Window {
    /// Does the window lie in the direct map, and can its end be rounded up?
    pub open spec fn ok(self) -> bool {
        &&& VIRT_OFFSET <= self.start
        &&& self.end + PAGE_SIZE - 1 <= u64::MAX
        &&& self.perm < 1024
        &&& self.perm & 14 != 0
    }

    /// First page.
    pub open spec fn first(self) -> int {
        addr::page_floor(self.start as int) / 4096
    }

    /// One past the last page.
    pub open spec fn last(self) -> int {
        addr::page_ceil(self.end as int) / 4096
    }
}

/// Read + execute, for the kernel.
pub const KERNEL_RX: u64 = 42;

/// Read only, for the kernel.
pub const KERNEL_R: u64 = 34;

/// Read + write, for the kernel.
pub const KERNEL_RW: u64 = 38;

/// What the permission bits of the kernel's windows are.
proof fn lemma_kernel_perms()
    by (bit_vector)
    ensures
        KERNEL_RX == (1u64 << 1 | 1u64 << 3) | 1u64 << 5,
        KERNEL_R == 1u64 << 1 | 1u64 << 5,
        KERNEL_RW == (1u64 << 1 | 1u64 << 2) | 1u64 << 5,
        KERNEL_RX & 14 != 0,
        KERNEL_R & 14 != 0,
        KERNEL_RW & 14 != 0,
        KERNEL_RX & 16 != 16,
        KERNEL_R & 16 != 16,
        KERNEL_RW & 16 != 16,
        KERNEL_RX & 4 != 4,
        KERNEL_R & 4 != 4,
        KERNEL_R & 8 != 8,
        KERNEL_RW & 8 != 8,
{
}

/// The section from `start` to `end`, unless it is empty.
pub open spec fn section(start: u64, end: u64, perm: u64) -> Seq<Window> {
    if start == end {
        Seq::empty()
    } else {
        seq![Window { start, end, perm }]
    }
}

/// The window of a device: `size` bytes from physical address `base` on.
pub open spec fn device(base: u64, size: u64) -> Window {
    Window {
        start: (base + VIRT_OFFSET) as u64,
        end: (base + size + VIRT_OFFSET) as u64,
        perm: KERNEL_RW,
    }
}

/// All that the kernel maps: its sections, text executable, constants read-only
/// and data writable; everything above the image, so that the allocator's frames
/// are reachable; and the devices.
pub open spec fn kernel_windows(l: KernelLayout) -> Seq<Window> {
    section(l.text_start, l.text_end, KERNEL_RX) + section(l.rodata_start, l.rodata_end, KERNEL_R) + section(
        l.data_start,
        l.data_end,
        KERNEL_RW,
    ) + section(l.bss_start, l.bss_end, KERNEL_RW) + seq![
        Window {
            start: l.kernel_end,
            end: (DRAM_BASE + DRAM_SIZE + VIRT_OFFSET) as u64,
            perm: KERNEL_RW,
        },
        device(TEST_DEVICE_BASE, PAGE_SIZE),
        device(CLINT_BASE, 0x10000),
        device(PLIC_BASE, 0x600000),
        device(UART_BASE, PAGE_SIZE),
        device(VIRTIO_MMIO_BASE, (VIRTIO_MMIO_STRIDE * VIRTIO_MMIO_SLOTS) as u64),
    ]
}

/// How many of `free` frames are left once `windows` are mapped, one after the other,
/// in a table with the history `leaves`. `None` if they are not enough, or if a page
/// is taken.
pub open spec fn left_after(windows: Seq<Window>, leaves: Seq<Mark>, free: int) -> Option<int>
    decreases windows.len(),
{
    if windows.len() == 0 {
        Some(free)
    } else {
        let w = windows[0];
        let plan = space::install(leaves, Backing::Linear, w.first(), w.last(), free);
        if plan.result is Ok {
            left_after(windows.drop_first(), plan.leaves, plan.free)
        } else {
            None
        }
    }
}

impl KernelLayout {
    /// Are all addresses in the direct map?
    pub open spec fn ok(&self) -> bool {
        &&& VIRT_OFFSET <= self.text_start && self.text_end + PAGE_SIZE - 1 <= u64::MAX
        &&& VIRT_OFFSET <= self.rodata_start && self.rodata_end + PAGE_SIZE - 1 <= u64::MAX
        &&& VIRT_OFFSET <= self.data_start && self.data_end + PAGE_SIZE - 1 <= u64::MAX
        &&& VIRT_OFFSET <= self.bss_start && self.bss_end + PAGE_SIZE - 1 <= u64::MAX
        &&& VIRT_OFFSET <= self.kernel_end
    }

    /// All that the kernel maps.
    #[verifier::spinoff_prover]
    #[verifier::rlimit(40)]
    pub fn windows(&self) -> (r: Vec<Window>)
        requires
            self.ok(),
        ensures
            r@ == kernel_windows(*self),
            forall|k: int| 0 <= k < r@.len() ==> (#[trigger] r@[k]).ok() && r@[k].perm & 16 != 16,
            forall|k: int|
                0 <= k < r@.len() ==> !((#[trigger] r@[k]).perm & 4 == 4 && r@[k].perm & 8 == 8),
    {
        proof {
            lemma_kernel_perms();
        }
        let kernel: u64 = PteFlags::GLOBAL;
        let mut out: Vec<Window> = Vec::new();
        push_section(&mut out, self.text_start, self.text_end, PteFlags::RX | kernel);
        push_section(&mut out, self.rodata_start, self.rodata_end, PteFlags::READ | kernel);
        push_section(&mut out, self.data_start, self.data_end, PteFlags::RW | kernel);
        push_section(&mut out, self.bss_start, self.bss_end, PteFlags::RW | kernel);
        let ghost sections = out@;
        // The physical-memory window: not executable, and it deliberately
        // excludes the firmware below the kernel.
        let heap_start: u64 = mm::phys_to_virt(mm::kernel_end_phys(self.kernel_end));
        let heap_end: u64 = mm::phys_to_virt(DRAM_BASE + DRAM_SIZE);
        out.push(Window { start: heap_start, end: heap_end, perm: PteFlags::RW | kernel });
        push_device(&mut out, TEST_DEVICE_BASE, PAGE_SIZE);
        push_device(&mut out, CLINT_BASE, 0x10000);
        push_device(&mut out, PLIC_BASE, 0x600000);
        push_device(&mut out, UART_BASE, PAGE_SIZE);
        push_device(&mut out, VIRTIO_MMIO_BASE, VIRTIO_MMIO_STRIDE * VIRTIO_MMIO_SLOTS);
        assert(out@ =~= kernel_windows(*self));
        out
    }
}

/// Add a section, unless it is empty.
fn push_section(out: &mut Vec<Window>, start: u64, end: u64, perm: u64)
    ensures
        final(out)@ == old(out)@ + section(start, end, perm),
{
    if start != end {
        out.push(Window { start, end, perm });
    }
    assert(out@ =~= old(out)@ + section(start, end, perm));
}

/// Add the window of a device.
fn push_device(out: &mut Vec<Window>, base: u64, size: u64)
    requires
        base + size <= 0x1_0000_0000,
    ensures
        final(out)@ == old(out)@.push(device(base, size)),
{
    proof {
        lemma_kernel_perms();
    }
    out.push(
        Window {
            start: mm::phys_to_virt(base),
            end: mm::phys_to_virt(base + size),
            perm: PteFlags::RW | PteFlags::GLOBAL,
        },
    );
}

/// The regions of `s` are the first `n` of `windows`, page for page.
pub open spec fn laid_out(s: AddressSpace, windows: Seq<Window>, n: int) -> bool {
    &&& s.regions().len() == n
    &&& forall|k: int|
        0 <= k < n ==> {
            &&& (#[trigger] s.regions()[k]).first() == windows[k].first()
            &&& s.regions()[k].last() == windows[k].last()
            &&& s.regions()[k].spec_perm() == windows[k].perm
            &&& s.regions()[k].spec_backing() == Backing::Linear
        }
}

/// Build the kernel address space.
///
/// `None` if memory runs out, or if two of the windows claim the same page.
#[verifier::rlimit(40)]
pub fn init_kernel_space(mem: &mut Memory, layout: &KernelLayout) -> (r: Option<AddressSpace>)
    requires
        old(mem).wf(),
        layout.ok(),
    ensures
        final(mem).wf(),
        final(mem).same_but(*old(mem), Set::empty()),
        r is Some <==> old(mem).free() > 0 && left_after(
            kernel_windows(*layout),
            Seq::empty(),
            old(mem).free() - 1,
        ) is Some,
        match r {
            Some(s) => {
                &&& s.wf(*final(mem))
                &&& s.tops() == 512
                &&& s.supervisor(*final(mem))
                &&& laid_out(s, kernel_windows(*layout), kernel_windows(*layout).len() as int)
                &&& s.support() == s.footprint()
                &&& final(mem).grew(*old(mem), s.footprint())
                &&& s.footprint() == s.spec_table().own()
                &&& left_after(kernel_windows(*layout), Seq::empty(), old(mem).free() - 1) == Some(
                    final(mem).free(),
                )
                &&& s.spec_table().spec_table_frames() == old(mem).free() - final(mem).free()
            },
            None => final(mem).grew(*old(mem), Set::empty()),
        },
{
    let ghost m0 = *mem;
    let windows: Vec<Window> = layout.windows();
    let ghost all = windows@;
    proof {
        m0.lemma_grew_none(m0);
    }
    let mut s: AddressSpace = match AddressSpace::new(mem) {
        Some(s) => s,
        None => {
            return None;
        },
    };
    assert(all.skip(0) =~= all);
    assert(space::frames_of(s.regions()) =~= Set::<int>::empty());
    let mut i: usize = 0;
    while i < windows.len()
        invariant
            i <= windows@.len(),
            all == windows@,
            all == kernel_windows(*layout),
            m0.wf(),
            mem.wf(),
            s.wf(*mem),
            s.tops() == 512,
            s.support() == s.footprint(),
            mem.grew(m0, s.footprint()),
            mem.same_but(m0, Set::empty()),
            laid_out(s, all, i as int),
            m0.free() > 0,
            space::frames_of(s.regions()) == Set::<int>::empty(),
            left_after(all, Seq::empty(), m0.free() - 1) == left_after(
                all.skip(i as int),
                s.leaves(),
                mem.free(),
            ),
            forall|k: int| 0 <= k < all.len() ==> (#[trigger] all[k]).ok() && all[k].perm & 16 != 16,
            m0 == *old(mem),
        decreases windows@.len() - i,
    {
        let ghost m1 = *mem;
        let ghost s1 = s;
        let w: Window = windows[i];
        assert(all[i as int].ok());
        let region: Region = Region::new(
            VirtAddr(w.start),
            VirtAddr(w.end),
            Backing::Linear,
            PteFlags(w.perm),
        );
        proof {
            assert(all.skip(i as int)[0] == w);
            assert(all.skip(i as int).drop_first() =~= all.skip(i + 1));
            assert(region.spec_start() >= VIRT_OFFSET);
        }
        let pushed = s.push(mem, region);
        let ghost m2 = *mem;
        let ghost added = s.footprint().difference(s1.footprint());
        proof {
            m2.lemma_grew_twice(m1, m0, s1.footprint(), added);
            assert(s1.footprint().union(added) =~= s.footprint());
            assert(s.support() =~= s.footprint());
            if pushed.is_ok() {
                assert(s.regions().last().frames().to_set() =~= Set::<int>::empty());
                assert(space::frames_of(s.regions()) =~= Set::<int>::empty());
            }
            assert forall|f: int| m0.used(f) && m2.used(f) implies #[trigger] m2.same_frame(m0, f) by {
                assert(m1.used(f));
                assert(m1.same_frame(m0, f));
                assert(!s1.footprint().contains(f));
                assert(m2.same_frame(m1, f));
            }
        }
        if pushed.is_err() {
            let ghost fp = s.footprint();
            s.release(mem);
            proof {
                mem.lemma_grew_shrank(m2, m0, fp, fp);
                assert(fp.difference(fp) =~= Set::<int>::empty());
                assert forall|f: int| m0.used(f) && mem.used(f) implies #[trigger] mem.same_frame(m0, f) by {
                    assert(m2.used(f));
                    assert(m2.same_frame(m0, f));
                    assert(mem.same_frame(m2, f));
                }
            }
            return None;
        }
        proof {
            assert forall|k: int| 0 <= k < i + 1 implies {
                &&& (#[trigger] s.regions()[k]).first() == all[k].first()
                &&& s.regions()[k].last() == all[k].last()
                &&& s.regions()[k].spec_perm() == all[k].perm
                &&& s.regions()[k].spec_backing() == Backing::Linear
            } by {
                if k < i {
                    assert(s.regions()[k] == s1.regions()[k]);
                } else {
                    assert(s.regions().last() == s.regions()[k]);
                }
            }
        }
        i = i + 1;
    }
    proof {
        lemma_supervisor(s, *mem, all);
        s.spec_table().lemma_wf(*mem);
        assert(s.footprint() =~= s.spec_table().own());
    }
    Some(s)
}

/// What the flags of the hardware entry of a page of the kernel are.
proof fn lemma_kernel_page(s: AddressSpace, mem: Memory, windows: Seq<Window>, v: int) -> (k: int)
    requires
        s.wf(mem),
        s.tops() == 512,
        laid_out(s, windows, windows.len() as int),
        forall|k: int| 0 <= k < windows.len() ==> (#[trigger] windows[k]).ok(),
        0 <= v,
        page_table::walk(mem, s.root(), v) is Some,
    ensures
        0 <= k < windows.len(),
        page_table::entry_flags((page_table::walk(mem, s.root(), v)->0).1) == page_table::installed(
            windows[k].perm,
        ),
{
    reveal(AddressSpace::sound);
    page_table::lemma_index(v, 0);
    let i = choose|i: int| 0 <= i < s.regions().len() && #[trigger] s.in_region(v, i);
    assert(s.backed(mem, v, i));
    assert(s.regions()[i].spec_perm() == windows[i].perm);
    i
}

/// Nothing in the kernel's windows is for users.
proof fn lemma_supervisor(s: AddressSpace, mem: Memory, windows: Seq<Window>)
    requires
        s.wf(mem),
        s.tops() == 512,
        laid_out(s, windows, windows.len() as int),
        forall|k: int| 0 <= k < windows.len() ==> (#[trigger] windows[k]).ok() && windows[k].perm & 16 != 16,
    ensures
        s.supervisor(mem),
{
    assert forall|w: int| 0 <= w implies (#[trigger] page_table::walk(mem, s.root(), w) matches Some((l, x))
        ==> x & 16 != 16) by {
        if let Some((l, x)) = page_table::walk(mem, s.root(), w) {
            let k = lemma_kernel_page(s, mem, windows, w);
            page_table::lemma_installed(windows[k].perm);
            page_table::lemma_flags_low(x);
        }
    }
}

/// No page of the kernel is both writable and executable, and none can be
/// reached from user mode.
pub proof fn law_kernel_is_write_xor_execute(s: AddressSpace, mem: Memory, layout: KernelLayout, v: int)
    requires
        layout.ok(),
        s.wf(mem),
        s.tops() == 512,
        laid_out(s, kernel_windows(layout), kernel_windows(layout).len() as int),
        0 <= v,
    ensures
        page_table::walk(mem, s.root(), v) matches Some((l, x)) ==> !(x & 4 == 4 && x & 8 == 8) && x & 16 != 16,
{
    let all = kernel_windows(layout);
    lemma_kernel_perms();
    lemma_window_perms(layout);
    if let Some((l, x)) = page_table::walk(mem, s.root(), v) {
        let k = lemma_kernel_page(s, mem, all, v);
        page_table::lemma_installed(all[k].perm);
        page_table::lemma_flags_low(x);
    }
}

/// The permissions of the kernel's windows.
proof fn lemma_window_perms(layout: KernelLayout)
    requires
        layout.ok(),
    ensures
        forall|k: int|
            0 <= k < kernel_windows(layout).len() ==> (#[trigger] kernel_windows(layout)[k]).ok()
                && kernel_windows(layout)[k].perm & 16 != 16 && !(kernel_windows(layout)[k].perm & 4 == 4
                && kernel_windows(layout)[k].perm & 8 == 8),
{
    lemma_kernel_perms();
}

/// Every page of the kernel's sections is mapped to the frame at the direct map's
/// offset, with the section's permissions.
pub proof fn law_kernel_sections_are_mapped(
    s: AddressSpace,
    mem: Memory,
    layout: KernelLayout,
    k: int,
    v: int,
)
    requires
        layout.ok(),
        s.wf(mem),
        laid_out(s, kernel_windows(layout), kernel_windows(layout).len() as int),
        0 <= k < kernel_windows(layout).len(),
        kernel_windows(layout)[k].first() <= v < kernel_windows(layout)[k].last(),
    ensures
        space::resolve(mem, s.root(), v) == Some(
            (v - space::OFFSET_PAGES, page_table::installed(kernel_windows(layout)[k].perm)),
        ),
{
    reveal(AddressSpace::sound);
    let r = s.regions()[k];
    assert(s.region_ok(mem, k));
    assert(r.first() == kernel_windows(layout)[k].first());
    space::lemma_offset(v, r.first());
    lemma_window_perms(layout);
    assert(kernel_windows(layout)[k].ok());
    assert(space::offset(v, r.first()) == v - r.first());
    assert(s.in_region(v, k));
    assert(s.backed(mem, v, k));
}

/// The permission bits of an entry that was installed with `perm`.
proof fn lemma_entry_bits(w: u64, perm: u64)
    by (bit_vector)
    requires
        w % 1024 == perm | 0xc1,
    ensures
        w % 2 == 1,
        (w / 2) % 2 == (perm / 2) % 2,
        (w / 4) % 2 == (perm / 4) % 2,
        (w / 8) % 2 == (perm / 8) % 2,
        (w / 16) % 2 == (perm / 16) % 2,
        (w / 32) % 2 == (perm / 32) % 2,
{
}

/// Is address `x` mapped to the frame that the direct map has there, readable, writable and
/// executable as the flags say, in every address space and never for user code?
pub open spec fn grants(mem: Memory, root: int, x: int, read: bool, write: bool, execute: bool) -> bool {
    page_table::walk(mem, root, x / 4096) matches Some((l, w)) && {
        &&& w % 2 == 1
        &&& ((w / 2) % 2 == 1) == read
        &&& ((w / 4) % 2 == 1) == write
        &&& ((w / 8) % 2 == 1) == execute
        &&& (w / 16) % 2 == 0
        &&& (w / 32) % 2 == 1
        &&& page_table::entry_ppn(w) + (x / 4096) % (if l == 0 {
            0x4_0000int
        } else if l == 1 {
            512
        } else {
            1
        }) == x / 4096 - 0xf_ffff_fc00_0000
    }
}

/// Does the memory of `size` bytes at physical address `base` hold what the direct map has
/// at `x`?
pub open spec fn direct(x: int, base: int, size: int) -> bool {
    0xffff_ffc0_0000_0000 + base <= x < 0xffff_ffc0_0000_0000 + base + size
}

/// Window `k` of the kernel is mapped with its permissions.
proof fn lemma_window(s: AddressSpace, mem: Memory, layout: KernelLayout, k: int, x: int)
    requires
        layout.ok(),
        s.wf(mem),
        laid_out(s, kernel_windows(layout), kernel_windows(layout).len() as int),
        0 <= k < kernel_windows(layout).len(),
        kernel_windows(layout)[k].start <= x < kernel_windows(layout)[k].end,
    ensures
        ({
            let perm = kernel_windows(layout)[k].perm;
            grants(mem, s.root(), x, (perm / 2) % 2 == 1, (perm / 4) % 2 == 1, (perm / 8) % 2 == 1) || (perm / 16) % 2
                == 1 || (perm / 32) % 2 == 0
        }),
{
    let w = kernel_windows(layout)[k];
    let v = x / 4096;
    law_kernel_sections_are_mapped(s, mem, layout, k, v);
    let (l, e) = page_table::walk(mem, s.root(), v)->0;
    page_table::lemma_walk_level(mem, s.root(), v);
    lemma_entry_bits(e, w.perm);
}

/// The kernel's own space gives each part of memory what it needs: code can be read and
/// executed, constants can be read, data of either kind, the memory above the image and the
/// devices can be read and written, and nothing else can be done with any of them. Every
/// address stands for the byte that the direct map has there.
#[verifier::rlimit(40)]
pub proof fn law_kernel_memory_has_its_permissions(s: AddressSpace, mem: Memory, layout: KernelLayout, x: int)
    requires
        layout.ok(),
        s.wf(mem),
        laid_out(s, kernel_windows(layout), kernel_windows(layout).len() as int),
    ensures
        layout.text_start <= x < layout.text_end ==> grants(mem, s.root(), x, true, false, true),
        layout.rodata_start <= x < layout.rodata_end ==> grants(mem, s.root(), x, true, false, false),
        layout.data_start <= x < layout.data_end ==> grants(mem, s.root(), x, true, true, false),
        layout.bss_start <= x < layout.bss_end ==> grants(mem, s.root(), x, true, true, false),
        layout.kernel_end <= x < 0xffff_ffc0_8800_0000 ==> grants(mem, s.root(), x, true, true, false),
        direct(x, 0x10_0000, 0x1000) ==> grants(mem, s.root(), x, true, true, false),
        direct(x, 0x200_0000, 0x1_0000) ==> grants(mem, s.root(), x, true, true, false),
        direct(x, 0xc00_0000, 0x60_0000) ==> grants(mem, s.root(), x, true, true, false),
        direct(x, 0x1000_0000, 0x1000) ==> grants(mem, s.root(), x, true, true, false),
        direct(x, 0x1000_1000, 0x8000) ==> grants(mem, s.root(), x, true, true, false),
{
    let all = kernel_windows(layout);
    let a = section(layout.text_start, layout.text_end, KERNEL_RX).len() as int;
    let b = a + section(layout.rodata_start, layout.rodata_end, KERNEL_R).len();
    let c = b + section(layout.data_start, layout.data_end, KERNEL_RW).len();
    let d = c + section(layout.bss_start, layout.bss_end, KERNEL_RW).len();
    assert(all.len() == d + 6);
    if layout.text_start <= x < layout.text_end {
        assert(all[0].start == layout.text_start && all[0].end == layout.text_end && all[0].perm == KERNEL_RX);
        lemma_window(s, mem, layout, 0, x);
    }
    if layout.rodata_start <= x < layout.rodata_end {
        assert(all[a].start == layout.rodata_start && all[a].end == layout.rodata_end && all[a].perm == KERNEL_R);
        lemma_window(s, mem, layout, a, x);
    }
    if layout.data_start <= x < layout.data_end {
        assert(all[b].start == layout.data_start && all[b].end == layout.data_end && all[b].perm == KERNEL_RW);
        lemma_window(s, mem, layout, b, x);
    }
    if layout.bss_start <= x < layout.bss_end {
        assert(all[c].start == layout.bss_start && all[c].end == layout.bss_end && all[c].perm == KERNEL_RW);
        lemma_window(s, mem, layout, c, x);
    }
    assert(all[d].start == layout.kernel_end && all[d].perm == KERNEL_RW);
    if layout.kernel_end <= x < 0xffff_ffc0_8800_0000 {
        lemma_window(s, mem, layout, d, x);
    }
    assert(all[d + 1] == device(TEST_DEVICE_BASE, PAGE_SIZE));
    assert(all[d + 2] == device(CLINT_BASE, 0x10000));
    assert(all[d + 3] == device(PLIC_BASE, 0x600000));
    assert(all[d + 4] == device(UART_BASE, PAGE_SIZE));
    assert(all[d + 5] == device(VIRTIO_MMIO_BASE, (VIRTIO_MMIO_STRIDE * VIRTIO_MMIO_SLOTS) as u64));
    if direct(x, 0x10_0000, 0x1000) {
        lemma_window(s, mem, layout, d + 1, x);
    }
    if direct(x, 0x200_0000, 0x1_0000) {
        lemma_window(s, mem, layout, d + 2, x);
    }
    if direct(x, 0xc00_0000, 0x60_0000) {
        lemma_window(s, mem, layout, d + 3, x);
    }
    if direct(x, 0x1000_0000, 0x1000) {
        lemma_window(s, mem, layout, d + 4, x);
    }
    if direct(x, 0x1000_1000, 0x8000) {
        lemma_window(s, mem, layout, d + 5, x);
    }
}

/// Is `x` an address of a section, of the memory above the image, or of a device?
pub open spec fn is_kernel_memory(layout: KernelLayout, x: int) -> bool {
    ||| layout.text_start <= x < layout.text_end
    ||| layout.rodata_start <= x < layout.rodata_end
    ||| layout.data_start <= x < layout.data_end
    ||| layout.bss_start <= x < layout.bss_end
    ||| layout.kernel_end <= x < 0xffff_ffc0_8800_0000
    ||| direct(x, 0x10_0000, 0x1000)
    ||| direct(x, 0x200_0000, 0x1_0000)
    ||| direct(x, 0xc00_0000, 0x60_0000)
    ||| direct(x, 0x1000_0000, 0x1000)
    ||| direct(x, 0x1000_1000, 0x8000)
}

proof fn lemma_window_is_memory(layout: KernelLayout, i: int, x: int)
    requires
        0 <= i < kernel_windows(layout).len(),
        layout.text_start <= layout.text_end,
        layout.rodata_start <= layout.rodata_end,
        layout.data_start <= layout.data_end,
        layout.bss_start <= layout.bss_end,
    ensures
        ({
            let w = kernel_windows(layout)[i];
            &&& w.start <= x < w.end ==> is_kernel_memory(layout, x)
            &&& w.start < w.end || w.end == 0xffff_ffc0_8800_0000
        }),
{
    let all = kernel_windows(layout);
    let a = section(layout.text_start, layout.text_end, KERNEL_RX).len() as int;
    let b = a + section(layout.rodata_start, layout.rodata_end, KERNEL_R).len();
    let c = b + section(layout.data_start, layout.data_end, KERNEL_RW).len();
    let d = c + section(layout.bss_start, layout.bss_end, KERNEL_RW).len();
    assert(all.len() == d + 6);
    if i < a {
        assert(all[i].start == layout.text_start && all[i].end == layout.text_end);
    } else if i < b {
        assert(all[i].start == layout.rodata_start && all[i].end == layout.rodata_end);
    } else if i < c {
        assert(all[i].start == layout.data_start && all[i].end == layout.data_end);
    } else if i < d {
        assert(all[i].start == layout.bss_start && all[i].end == layout.bss_end);
    } else if i == d {
        assert(all[d].start == layout.kernel_end && all[d].end == 0xffff_ffc0_8800_0000);
    } else if i == d + 1 {
        assert(all[d + 1] == device(TEST_DEVICE_BASE, PAGE_SIZE));
    } else if i == d + 2 {
        assert(all[d + 2] == device(CLINT_BASE, 0x10000));
    } else if i == d + 3 {
        assert(all[d + 3] == device(PLIC_BASE, 0x600000));
    } else if i == d + 4 {
        assert(all[d + 4] == device(UART_BASE, PAGE_SIZE));
    } else {
        assert(all[d + 5] == device(VIRTIO_MMIO_BASE, (VIRTIO_MMIO_STRIDE * VIRTIO_MMIO_SLOTS) as u64));
    }
}

/// What the kernel's space maps in addition to that is nothing: a page that no part of
/// memory reaches into is not mapped.
pub proof fn law_kernel_maps_nothing_else(s: AddressSpace, mem: Memory, layout: KernelLayout, v: int)
    requires
        layout.ok(),
        s.wf(mem),
        s.tops() == 512,
        laid_out(s, kernel_windows(layout), kernel_windows(layout).len() as int),
        layout.text_start <= layout.text_end,
        layout.rodata_start <= layout.rodata_end,
        layout.data_start <= layout.data_end,
        layout.bss_start <= layout.bss_end,
        0xf_ffff_fc00_0000 <= v < 0x10_0000_0000_0000,
        page_table::walk(mem, s.root(), v) is Some,
    ensures
        exists|x: int| x / 4096 == v && #[trigger] is_kernel_memory(layout, x),
{
    reveal(AddressSpace::sound);
    let all = kernel_windows(layout);
    lemma_window_perms(layout);
    page_table::lemma_index(v, 0);
    let i = choose|i: int| 0 <= i < s.regions().len() && #[trigger] s.in_region(v, i);
    let w = all[i];
    assert(w.ok());
    assert(s.regions()[i].first() == w.first() && s.regions()[i].last() == w.last());
    space::lemma_offset(v, w.first());
    assert(w.first() <= v < w.last());
    lemma_window_is_memory(layout, i, v);
    let x = if v * 4096 >= w.start {
        v * 4096
    } else {
        w.start as int
    };
    assert(x / 4096 == v);
    assert(w.start <= x < w.end);
    lemma_window_is_memory(layout, i, x);
}

} // verus!
