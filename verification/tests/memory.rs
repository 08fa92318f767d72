//! Addresses, frames, the heap, page tables and address spaces.

use alexos::config::{
    DRAM_BASE, DRAM_SIZE, KERNEL_PHYS_BASE, PAGE_SIZE, UART_BASE, USER_MAX_ADDR, VIRT_OFFSET,
};
use alexos::mm;
use alexos::mm::addr::{PhysAddr, PhysPageNum, VirtAddr, VirtPageNum};
use alexos::mm::dram::Dram;
use alexos::mm::frame::{self, order_for, Frame, Memory};
use alexos::mm::heap::{self, class_for, class_size, Heap, Layout};
use alexos::mm::kernel::{init_kernel_space, KernelLayout};
use alexos::mm::page_table::{MapError, PageTable, Pte, PteFlags};
use alexos::mm::space::{AddressSpace, Backing, Region};

const KERNEL_END: u64 = VIRT_OFFSET + 0x802c_2000;

fn flags(bits: u64) -> PteFlags {
    PteFlags(bits)
}

/// The memory of the board, with the kernel image at its start.
fn board() -> Memory {
    let mut mem = Memory::new(Dram::new(PhysPageNum(DRAM_BASE / PAGE_SIZE), DRAM_SIZE / PAGE_SIZE));
    mm::init(&mut mem, KERNEL_END);
    mem
}

/// A memory of 1024 frames: as many again are lost to the allocator's own bitmap and
/// to the alignment of its largest block.
fn small() -> Memory {
    let mut mem = Memory::new(Dram::new(PhysPageNum(0x8_0000), 2048));
    frame::init(&mut mem, VIRT_OFFSET + 0x8000_0000, PhysAddr(0x8080_0000));
    mem
}

fn layout() -> KernelLayout {
    let v = VIRT_OFFSET + KERNEL_PHYS_BASE;
    KernelLayout {
        text_start: v,
        text_end: v + 0x2_0000,
        rodata_start: v + 0x2_0000,
        rodata_end: v + 0x3_0000,
        data_start: v + 0x3_0000,
        data_end: v + 0x3_1000,
        bss_start: v + 0x3_1000,
        bss_end: v + 0x4_0000,
        kernel_end: KERNEL_END,
    }
}

fn machine() -> (Memory, AddressSpace) {
    let mut mem = board();
    let kernel = init_kernel_space(&mut mem, &layout()).expect("kernel space");
    (mem, kernel)
}

fn user_space(mem: &mut Memory, kernel: &AddressSpace, base: u64, pages: u64, bits: u64) -> AddressSpace {
    let mut space = AddressSpace::new(mem).expect("out of frames");
    space.map_kernel_half(mem, kernel);
    space
        .push(
            mem,
            Region::new(VirtAddr(base), VirtAddr(base + pages * PAGE_SIZE), Backing::Framed, flags(bits)),
        )
        .expect("push failed");
    space
}

#[test]
fn addr_page_math() {
    let a = VirtAddr(0x1234_5678);
    assert_eq!(a.page_offset(), 0x678);
    assert_eq!(a.align_down().0, 0x1234_5000);
    assert_eq!(a.align_up().0, 0x1234_6000);
    assert!(a.align_down().is_aligned());
    assert_eq!(a.align_down().align_up().0, 0x1234_5000);
}

#[test]
fn addr_sv39_indices() {
    let vpn = VirtPageNum((1 << 18) | (2 << 9) | 3);
    assert_eq!(vpn.indices(), [1, 2, 3]);
}

#[test]
fn addr_canonical_form() {
    assert!(VirtAddr(0x0000_003f_ffff_f000).is_canonical());
    assert!(VirtAddr(VIRT_OFFSET).is_canonical());
    assert!(!VirtAddr(0x0000_0080_0000_0000).is_canonical());
}

#[test]
fn addr_direct_map_roundtrip() {
    let pa = PhysAddr(0x8020_1000);
    assert_eq!(pa.to_virt().to_phys(), pa);
    assert!(pa.to_virt().is_kernel());
    assert_eq!(mm::virt_to_phys(mm::phys_to_virt(UART_BASE)), UART_BASE);
}

#[test]
fn physical_addresses_and_page_numbers() {
    let a = PhysAddr(0x8000_1fff);
    assert_eq!(a.page_offset(), 0xfff);
    assert_eq!(a.align_down(), PhysAddr(0x8000_1000));
    assert_eq!(a.align_up(), PhysAddr(0x8000_2000));
    assert_eq!(a.ppn(), PhysPageNum(0x8_0001));
    assert_eq!(PhysAddr(0x8000_1000).ppn_exact(), PhysPageNum(0x8_0001));
    assert_eq!(PhysPageNum(0x8_0001).base_addr(), PhysAddr(0x8000_1000));
    assert_eq!(PhysPageNum(0x8_0001).next(), PhysPageNum(0x8_0002));
    assert_eq!(VirtPageNum(5).base_addr(), VirtAddr(0x5000));
    assert!(!VirtAddr(USER_MAX_ADDR - 1).is_kernel());
    assert_eq!(VirtPageNum::range_len(VirtAddr(0x1000), VirtAddr(0x3000)), 2);
}

#[test]
fn frame_alloc_is_zeroed_and_unique() {
    let mut mem = board();
    let a = Frame::allocate(&mut mem).expect("out of frames");
    let b = Frame::allocate(&mut mem).expect("out of frames");
    assert_ne!(a.ppn(), b.ppn());
    assert!(a.as_slice(&mem).iter().all(|&x| x == 0));
    assert!(b.as_slice(&mem).iter().all(|&x| x == 0));
}

#[test]
fn frame_free_is_reused() {
    let mut mem = board();
    let before = mem.free_frames();
    let f = Frame::allocate(&mut mem).expect("out of frames");
    let ppn = f.ppn();
    f.release(&mut mem);
    assert_eq!(mem.free_frames(), before);
    let again = Frame::allocate(&mut mem).expect("out of frames");
    assert_eq!(again.ppn(), ppn);
}

#[test]
fn frame_contiguous_run() {
    let mut mem = board();
    let run = Frame::alloc_order(&mut mem, 3).expect("out of frames");
    assert_eq!(run.count(&mem), 8);
    assert_eq!(run.ppn().0 % 8, 0, "an order-3 block must be 8-frame aligned");
    assert_eq!(run.as_slice(&mem).len() as u64, 8 * PAGE_SIZE);
}

#[test]
fn frame_buddy_merges_on_free() {
    let mut mem = board();
    let before = mem.free_frames();
    let a = Frame::alloc_order(&mut mem, 2).expect("out of frames");
    let b = Frame::alloc_order(&mut mem, 2).expect("out of frames");
    assert_eq!(mem.free_frames(), before - 8);
    a.release(&mut mem);
    b.release(&mut mem);
    assert_eq!(mem.free_frames(), before);
    let big = Frame::alloc_order(&mut mem, 3).expect("buddy failed to merge");
    assert_eq!(big.count(&mem), 8);
}

#[test]
fn frame_order_for_rounds_up() {
    assert_eq!(order_for(1), 0);
    assert_eq!(order_for(2), 1);
    assert_eq!(order_for(3), 2);
    assert_eq!(order_for(4), 2);
    assert_eq!(order_for(5), 3);
    assert_eq!(order_for(8), 3);
}

#[test]
fn board_has_the_documented_number_of_frames() {
    let mem = board();
    assert_eq!(mem.total_frames(), 31744);
    assert_eq!(mem.free_frames(), 31744);
    assert_eq!(mem.used_frames(), 0);
}

#[test]
fn frames_run_out_and_come_back() {
    let mut mem = small();
    assert_eq!(mem.total_frames(), 1024);
    let mut held = Vec::new();
    while let Some(p) = frame::alloc_frame(&mut mem) {
        held.push(p);
    }
    assert_eq!(held.len(), 1024);
    assert_eq!(mem.free_frames(), 0);
    assert_eq!(mem.peak_frames(), 1024);
    assert!(frame::alloc_frames(&mut mem, 0).is_none());
    for p in held {
        frame::free_frames(&mut mem, p, 0);
    }
    assert_eq!(mem.free_frames(), 1024);
    assert_eq!(mem.peak_frames(), 1024);
    let all = frame::alloc_frames(&mut mem, 10).expect("merged to one block");
    assert_eq!(all.0 % 1024, 0);
    assert!(frame::alloc_frames(&mut mem, 11).is_none());
}

#[test]
fn frame_contents_are_private() {
    let mut mem = small();
    let mut a = Frame::allocate(&mut mem).unwrap();
    let b = Frame::allocate(&mut mem).unwrap();
    a.write_at(&mut mem, 100, b"hello");
    assert_eq!(&a.as_slice(&mem)[100..105], b"hello");
    assert!(b.as_slice(&mem).iter().all(|&x| x == 0));
    let p = a.ppn();
    a.release(&mut mem);
    let again = Frame::allocate(&mut mem).unwrap();
    assert_eq!(again.ppn(), p);
    assert!(again.as_slice(&mem).iter().all(|&x| x == 0));
}

fn fill(mem: &mut Memory, ptr: u64, len: u64, b: u8) {
    for i in 0..len {
        let a = ptr - VIRT_OFFSET + i;
        mem.write_byte(PhysPageNum(a / PAGE_SIZE), a % PAGE_SIZE, b);
    }
}

fn holds(mem: &Memory, ptr: u64, len: u64, b: u8) -> bool {
    (0..len).all(|i| {
        let a = ptr - VIRT_OFFSET + i;
        mem.read_byte(PhysPageNum(a / PAGE_SIZE), a % PAGE_SIZE) == b
    })
}

#[test]
fn heap_size_classes_do_not_overlap() {
    let mut mem = board();
    let mut heap = Heap::new();
    let sizes = [8u64, 16, 32, 64, 128, 256, 512, 1024, 2048];
    let mut buffers = Vec::new();
    for (i, &size) in sizes.iter().enumerate() {
        let p = heap.allocate(&mut mem, Layout { size, align: 1 }).expect("allocation");
        fill(&mut mem, p, size, i as u8);
        buffers.push(p);
    }
    for (i, &p) in buffers.iter().enumerate() {
        assert!(holds(&mem, p, sizes[i], i as u8), "size class {} corrupted", sizes[i]);
    }
}

#[test]
fn heap_large_allocation_bypasses_classes() {
    let mut mem = board();
    let mut heap = Heap::new();
    let before = mem.free_frames();
    let l = Layout { size: 96 * 1024, align: 1 };
    assert!(class_for(l).is_none());
    let big = heap.allocate(&mut mem, l).expect("allocation");
    fill(&mut mem, big, 96 * 1024, 0x5a);
    assert!(holds(&mem, big, 96 * 1024, 0x5a));
    assert_eq!(before - mem.free_frames(), 32);
    heap.dealloc(&mut mem, big, l);
    assert_eq!(mem.free_frames(), before);
}

#[test]
fn heap_reuses_freed_blocks() {
    let mut mem = board();
    let mut heap = Heap::new();
    let l = Layout { size: 8, align: 8 };
    let p = heap.allocate(&mut mem, l).unwrap();
    heap.dealloc(&mut mem, p, l);
    assert_eq!(heap.allocate(&mut mem, l), Some(p));
}

#[test]
fn heap_alignment_is_honoured() {
    let mut mem = board();
    let mut heap = Heap::new();
    let p = heap.allocate(&mut mem, Layout { size: 64, align: 64 }).unwrap();
    assert_eq!(p % 64, 0);
    let q = heap.allocate(&mut mem, Layout { size: 8, align: 1024 }).unwrap();
    assert_eq!(q % 1024, 0);
}

#[test]
fn heap_survives_refills_and_large_blocks() {
    let mut mem = board();
    let mut heap = Heap::new();
    let a = heap.allocate(&mut mem, Layout { size: 8, align: 8 }).unwrap();
    let b = heap.allocate(&mut mem, Layout { size: 300, align: 1 }).unwrap();
    fill(&mut mem, a, 8, 0xde);
    fill(&mut mem, b, 300, 7);
    let mut many = Vec::new();
    for i in 0..4096u64 {
        let p = heap.allocate(&mut mem, Layout { size: 8, align: 8 }).unwrap();
        fill(&mut mem, p, 8, (i % 251) as u8);
        many.push(p);
    }
    let big = heap.allocate(&mut mem, Layout { size: 64 * 1024, align: 8 }).unwrap();
    fill(&mut mem, big, 64 * 1024, 0xab);
    assert!(many.iter().enumerate().all(|(i, &p)| holds(&mem, p, 8, (i % 251) as u8)));
    assert!(holds(&mem, big, 64 * 1024, 0xab));
    assert!(holds(&mem, a, 8, 0xde));
    assert!(holds(&mem, b, 300, 7));
    assert_eq!(heap::stats(&heap, &mem), (8 + 512 + 4096 * 8 + 64 * 1024, 9 * 4096 + 4096 + 64 * 1024));
}

#[test]
fn heap_classes() {
    assert_eq!(class_size(0), 8);
    assert_eq!(class_size(8), 2048);
    assert_eq!(class_for(Layout { size: 1, align: 1 }), Some(0));
    assert_eq!(class_for(Layout { size: 9, align: 1 }), Some(1));
    assert_eq!(class_for(Layout { size: 8, align: 32 }), Some(2));
    assert_eq!(class_for(Layout { size: 2048, align: 8 }), Some(8));
    assert_eq!(class_for(Layout { size: 2049, align: 8 }), None);
}

#[test]
fn heap_reports_exhaustion() {
    let mut mem = small();
    let mut heap = Heap::new();
    while frame::alloc_frame(&mut mem).is_some() {}
    assert_eq!(heap.allocate(&mut mem, Layout { size: 8, align: 8 }), None);
    assert_eq!(heap.allocate(&mut mem, Layout { size: 8192, align: 8 }), None);
    assert_eq!(heap::stats(&heap, &mem), (0, 0));
}

#[test]
fn page_table_map_translate_unmap() {
    let mut mem = board();
    let mut table = PageTable::new(&mut mem).expect("out of frames");
    let frame = Frame::allocate(&mut mem).expect("out of frames");
    let vpn = VirtPageNum(0x4_2000);
    assert!(table.translate(&mem, vpn).is_none());
    table
        .map(&mut mem, vpn, frame.ppn(), flags(PteFlags::RW | PteFlags::USER))
        .expect("map failed");
    let pte = table.translate(&mem, vpn).expect("translate failed after map");
    assert_eq!(pte.ppn(), frame.ppn());
    assert!(pte.flags().contains(flags(PteFlags::READ | PteFlags::WRITE | PteFlags::USER)));
    assert!(pte.flags().contains(flags(PteFlags::ACCESSED | PteFlags::DIRTY)));
    let va = VirtAddr(vpn.base_addr().0 + 0x321);
    assert_eq!(table.translate_addr(&mem, va).unwrap().0, frame.ppn().base_addr().0 + 0x321);
    assert_eq!(table.unmap(&mut mem, vpn).expect("unmap failed"), frame.ppn());
    assert!(table.translate(&mem, vpn).is_none());
}

#[test]
fn page_table_rejects_double_map() {
    let mut mem = board();
    let mut table = PageTable::new(&mut mem).expect("out of frames");
    let frame = Frame::allocate(&mut mem).expect("out of frames");
    let vpn = VirtPageNum(0x4_3000);
    table.map(&mut mem, vpn, frame.ppn(), flags(PteFlags::RW)).expect("first map failed");
    assert_eq!(
        table.map(&mut mem, vpn, frame.ppn(), flags(PteFlags::RW)),
        Err(MapError::AlreadyMapped)
    );
    assert_eq!(table.unmap(&mut mem, VirtPageNum(0x4_4000)), Err(MapError::NotMapped));
}

#[test]
fn page_table_superpage_covers_512_pages() {
    let mut mem = board();
    let mut table = PageTable::new(&mut mem).expect("out of frames");
    let vpn = VirtPageNum(512 * 4);
    let ppn = PhysPageNum(512 * 8);
    table
        .map_at_level(&mut mem, vpn, ppn, flags(PteFlags::RW), 1)
        .expect("superpage map failed");
    assert!(table.table_frames() <= 3, "a superpage should not need a leaf table");
    assert_eq!(
        table.map(&mut mem, VirtPageNum(512 * 4 + 9), ppn, flags(PteFlags::RW)),
        Err(MapError::AlreadyMapped)
    );
}

#[test]
fn leaves_of_any_size_are_removed() {
    let mut mem = board();
    let mut table = PageTable::new(&mut mem).expect("out of frames");
    let vpn = VirtPageNum(512 * 4);
    let ppn = PhysPageNum(512 * 8);
    assert_eq!(table.unmap_leaf(&mut mem, vpn), None);
    for _ in 0..2 {
        table.map_at_level(&mut mem, vpn, ppn, flags(PteFlags::RW), 1).expect("superpage");
        assert_eq!(table.unmap(&mut mem, VirtPageNum(512 * 4 + 9)), Err(MapError::NotMapped));
        assert_eq!(table.unmap_leaf(&mut mem, VirtPageNum(512 * 4 + 9)), Some(1));
        assert_eq!(table.unmap_leaf(&mut mem, vpn), None);
    }
    table.map(&mut mem, vpn, ppn, flags(PteFlags::RW)).expect("page");
    assert_eq!(table.unmap_leaf(&mut mem, vpn), Some(2));
    assert_eq!(table.translate(&mem, vpn).is_none(), true);
}

#[test]
fn a_failed_push_leaves_nothing_mapped() {
    let mut mem = board();
    let mut space = AddressSpace::new(&mut mem).expect("out of frames");
    let at = VIRT_OFFSET + 0x8040_0000;
    let page = |a: u64, b: u64, backing| Region::new(VirtAddr(a), VirtAddr(b), backing, flags(PteFlags::RW));
    // A page that is in the way, behind a 2 MiB leaf and some pages.
    let taken = at + 0x20_0000 + 5 * PAGE_SIZE;
    space.push(&mut mem, page(taken, taken + PAGE_SIZE, Backing::Framed)).expect("one page");
    let frame = space.translate(&mem, VirtAddr(taken)).unwrap();
    let end = at + 0x20_0000 + 9 * PAGE_SIZE;
    assert_eq!(space.push(&mut mem, page(at, end, Backing::Linear)), Err(MapError::AlreadyMapped));
    for v in (at..end).step_by(PAGE_SIZE as usize) {
        assert_eq!(space.table().translate(&mem, VirtAddr(v).vpn()).is_some(), v == taken);
    }
    assert_eq!(space.translate(&mem, VirtAddr(taken)).unwrap(), frame);
    assert!(space.find_region(VirtAddr(at)).is_none());
    // What the failed attempt had mapped can be mapped.
    space.push(&mut mem, page(at, taken, Backing::Linear)).expect("up to the page");
    let before = mem.free_frames();
    assert_eq!(space.push(&mut mem, page(taken - PAGE_SIZE, end, Backing::Framed)), Err(MapError::AlreadyMapped));
    assert_eq!(mem.free_frames(), before);
}

#[test]
fn a_push_that_finds_one_of_two_tables() {
    let mut mem = board();
    let all = mem.free_frames();
    let mut space = AddressSpace::new(&mut mem).expect("out of frames");
    let mut held = Vec::new();
    while mem.free_frames() > 2 {
        held.push(Frame::allocate(&mut mem).expect("counted"));
    }
    let region = || Region::new(VirtAddr(PAGE_SIZE), VirtAddr(3 * PAGE_SIZE), Backing::Framed, flags(PteFlags::RW));
    for _ in 0..2 {
        assert_eq!(space.push(&mut mem, region()), Err(MapError::OutOfMemory));
        assert_eq!(mem.free_frames(), 1, "the table that was found stays");
        assert_eq!(space.table().table_frames(), 2);
    }
    for _ in 0..2 {
        held.pop().expect("some left").release(&mut mem);
    }
    // The other table and two pages.
    space.push(&mut mem, region()).expect("enough now");
    assert_eq!(mem.free_frames(), 0);
    assert_eq!(space.table().table_frames(), 3);
    space.release(&mut mem);
    for frame in held {
        frame.release(&mut mem);
    }
    assert_eq!(mem.free_frames(), all);
}

#[test]
fn page_table_frees_its_own_frames() {
    let mut mem = board();
    let before = mem.free_frames();
    let mut table = PageTable::new(&mut mem).expect("out of frames");
    let frame = Frame::allocate(&mut mem).expect("out of frames");
    for i in 0..3u64 {
        let vpn = VirtPageNum(i * 512 * 512 + 7);
        table.map(&mut mem, vpn, frame.ppn(), flags(PteFlags::RW)).expect("map failed");
    }
    assert!(table.table_frames() > 1);
    assert_eq!(table.table_frames(), 7);
    table.release(&mut mem);
    frame.release(&mut mem);
    assert_eq!(mem.free_frames(), before);
}

#[test]
fn page_table_runs_out_of_memory() {
    let mut mem = small();
    let mut table = PageTable::new(&mut mem).unwrap();
    let frame = Frame::allocate(&mut mem).unwrap();
    while mem.free_frames() > 1 {
        let _ = frame::alloc_frame(&mut mem);
    }
    assert_eq!(
        table.map(&mut mem, VirtPageNum(3), frame.ppn(), flags(PteFlags::RW)),
        Err(MapError::OutOfMemory)
    );
    assert!(table.translate(&mem, VirtPageNum(3)).is_none());
    while frame::alloc_frame(&mut mem).is_some() {}
    assert!(PageTable::new(&mut mem).is_none());
}

#[test]
fn page_table_protect_changes_permissions() {
    let mut mem = small();
    let mut table = PageTable::new(&mut mem).unwrap();
    let frame = Frame::allocate(&mut mem).unwrap();
    let vpn = VirtPageNum(0x123);
    assert_eq!(table.protect(&mut mem, vpn, flags(PteFlags::READ)), Err(MapError::NotMapped));
    table.map(&mut mem, vpn, frame.ppn(), flags(PteFlags::RW)).unwrap();
    table.protect(&mut mem, vpn, flags(PteFlags::READ)).unwrap();
    let pte = table.translate(&mem, vpn).unwrap();
    assert_eq!(pte.ppn(), frame.ppn());
    assert!(!pte.flags().contains(flags(PteFlags::WRITE)));
}

#[test]
fn pte_flag_encoding() {
    let ppn = PhysPageNum(0x8_1234);
    let pte = Pte::new(ppn, flags(PteFlags::RX | PteFlags::VALID));
    assert_eq!(pte.ppn(), ppn);
    assert!(pte.is_valid());
    assert!(pte.is_leaf());
    assert!(!Pte::new(ppn, flags(PteFlags::VALID)).is_leaf());
    assert_eq!(pte.0, (0x8_1234 << 10) | 0b1011);
}

#[test]
fn flags_print_in_columns() {
    let text: String = flags(PteFlags::VALID | PteFlags::RW | PteFlags::USER).letters().iter().collect();
    assert_eq!(text, "VRW-U-----");
    let all: String = flags(0x3ff).letters().iter().collect();
    assert_eq!(all, "VRWXUGADCL");
}

#[test]
fn flag_sets() {
    let rw = flags(PteFlags::RW);
    assert!(rw.contains(flags(PteFlags::READ)));
    assert!(!rw.contains(flags(PteFlags::RX)));
    assert!(rw.intersects(flags(PteFlags::RX)));
    assert_eq!(rw.union(flags(PteFlags::EXEC)).0, PteFlags::RWX);
    assert_eq!(rw.without(flags(PteFlags::WRITE)).0, PteFlags::READ);
}

#[test]
fn address_space_user_copy_roundtrip() {
    let (mut mem, kernel) = machine();
    let base = 0x2_0000;
    let space = user_space(&mut mem, &kernel, base, 3, PteFlags::RW | PteFlags::USER);
    let payload: Vec<u8> = (0..PAGE_SIZE + 64).map(|i| (i % 251) as u8).collect();
    let at = VirtAddr(base + PAGE_SIZE - 32);
    space.copy_to_user(&mut mem, at, &payload).expect("copy_to_user failed");
    let mut back = vec![0u8; payload.len()];
    space.copy_from_user(&mem, at, &mut back).expect("copy_from_user failed");
    assert_eq!(back, payload);
}

#[test]
fn address_space_rejects_unmapped_and_readonly() {
    let (mut mem, kernel) = machine();
    let base = 0x3_0000;
    let space = user_space(&mut mem, &kernel, base, 1, PteFlags::READ | PteFlags::USER);
    let mut buf = vec![0u8; 4];
    assert!(space.copy_from_user(&mem, VirtAddr(0x9_0000), &mut buf).is_none());
    assert!(space.copy_to_user(&mut mem, VirtAddr(base), &[1, 2, 3, 4]).is_none());
    assert!(space.copy_from_user(&mem, VirtAddr(base), &mut buf).is_some());
    assert!(space.copy_from_user(&mem, VirtAddr(VIRT_OFFSET + KERNEL_PHYS_BASE), &mut buf).is_none());
}

#[test]
fn address_space_duplicate_copies_not_shares() {
    let (mut mem, kernel) = machine();
    let base = 0x4_0000;
    let parent = user_space(&mut mem, &kernel, base, 1, PteFlags::RW | PteFlags::USER);
    let base = VirtAddr(base);
    parent.copy_to_user(&mut mem, base, b"parent").expect("seed failed");
    let child = parent.duplicate(&mut mem, &kernel).expect("duplicate failed");
    let mut buf = vec![0u8; 6];
    child.copy_from_user(&mem, base, &mut buf).expect("read child");
    assert_eq!(&buf, b"parent");
    assert_ne!(parent.translate(&mem, base).unwrap(), child.translate(&mem, base).unwrap());
    child.copy_to_user(&mut mem, base, b"child!").expect("write child");
    parent.copy_from_user(&mem, base, &mut buf).expect("read parent");
    assert_eq!(&buf, b"parent", "a write to the child reached the parent");
}

#[test]
fn address_space_gives_everything_back() {
    let (mut mem, kernel) = machine();
    let before = mem.free_frames();
    let space = user_space(&mut mem, &kernel, 0x5_0000, 4, PteFlags::RW | PteFlags::USER);
    let twin = space.duplicate(&mut mem, &kernel).unwrap();
    assert!(mem.free_frames() < before);
    twin.release(&mut mem);
    space.release(&mut mem);
    assert_eq!(mem.free_frames(), before);
}

#[test]
fn address_space_knows_its_regions() {
    let (mut mem, kernel) = machine();
    let mut space = user_space(&mut mem, &kernel, 0x5_0000, 2, PteFlags::RW | PteFlags::USER);
    assert!(space.find_region(VirtAddr(0x5_0000)).is_some());
    assert!(space.find_region(VirtAddr(0x5_1fff)).is_some());
    assert!(space.find_region(VirtAddr(0x5_2000)).is_none());
    let again = space.push(
        &mut mem,
        Region::new(VirtAddr(0x5_1000), VirtAddr(0x5_3000), Backing::Framed, flags(PteFlags::RW)),
    );
    assert_eq!(again, Err(MapError::AlreadyMapped));
    space
        .push_with_data(
            &mut mem,
            Region::new(VirtAddr(0x6_0010), VirtAddr(0x6_0020), Backing::Framed, flags(PteFlags::RW | PteFlags::USER)),
            b"seed",
        )
        .unwrap();
    let r = space.find_region(VirtAddr(0x6_0000)).unwrap();
    assert_eq!((r.start().0, r.end().0), (0x6_0000, 0x6_1000));
    let mut buf = vec![0u8; 4];
    space.copy_from_user(&mem, VirtAddr(0x6_0000), &mut buf).unwrap();
    assert_eq!(&buf, b"seed");
}

#[test]
fn strings_are_read_out_of_user_memory() {
    let (mut mem, kernel) = machine();
    let space = user_space(&mut mem, &kernel, 0x7_0000, 2, PteFlags::RW | PteFlags::USER);
    space.copy_to_user(&mut mem, VirtAddr(0x7_0ffd), b"hello\0").unwrap();
    assert_eq!(space.read_cstr(&mem, VirtAddr(0x7_0ffd), 16), Some(b"hello".to_vec()));
    assert_eq!(space.read_cstr(&mem, VirtAddr(0x7_0ffd), 6), Some(b"hello".to_vec()));
    assert_eq!(space.read_cstr(&mem, VirtAddr(0x7_0ffd), 5), None);
    assert_eq!(space.read_cstr(&mem, VirtAddr(0x9_0000), 16), None);
}

#[test]
fn kernel_space_is_write_xor_execute() {
    let (mem, kernel) = machine();
    let text = VirtPageNum((VIRT_OFFSET + KERNEL_PHYS_BASE) / PAGE_SIZE);
    let pte = kernel.table().translate(&mem, text).expect("text is mapped");
    assert!(pte.flags().contains(flags(PteFlags::RX)));
    assert!(!pte.flags().contains(flags(PteFlags::WRITE)));
    assert!(!pte.flags().contains(flags(PteFlags::USER)));
    let data = VirtPageNum((VIRT_OFFSET + KERNEL_PHYS_BASE + 0x3_0000) / PAGE_SIZE);
    let pte = kernel.table().translate(&mem, data).expect("data is mapped");
    assert!(pte.flags().contains(flags(PteFlags::RW)));
    assert!(!pte.flags().contains(flags(PteFlags::EXEC)));
    let uart = kernel.translate(&mem, VirtAddr(VIRT_OFFSET + UART_BASE)).expect("uart is mapped");
    assert_eq!(uart.0, UART_BASE);
    assert_eq!(kernel.table().table_frames(), 7);
}

#[test]
fn a_user_space_holds_the_kernel_half() {
    let (mut mem, kernel) = machine();
    let mut space = user_space(&mut mem, &kernel, 0x5_0000, 1, PteFlags::RW | PteFlags::USER);
    let heap = Region::new(VirtAddr(0x1000_0000), VirtAddr(0x1000_2000), Backing::Framed, flags(PteFlags::RW | PteFlags::USER));
    space.push(&mut mem, heap).expect("heap");
    let twin = space.duplicate(&mut mem, &kernel).expect("duplicate");
    let bare = AddressSpace::with_kernel_half(&mut mem, &kernel).expect("out of frames");
    let text = VIRT_OFFSET + KERNEL_PHYS_BASE;
    for at in [text + 8, text + 0x2_0004, text + 0x3_0010, VIRT_OFFSET + UART_BASE] {
        let seen = kernel.translate(&mem, VirtAddr(at)).expect("the kernel is mapped");
        assert_eq!(seen.0, at - VIRT_OFFSET);
        for s in [&space, &twin, &bare] {
            assert_eq!(s.translate(&mem, VirtAddr(at)), Some(seen));
            let pte = s.table().translate(&mem, VirtPageNum(at / PAGE_SIZE)).expect("mapped");
            assert!(!pte.flags().contains(flags(PteFlags::USER)));
        }
    }
    // Nothing of the kernel is in the lower half, and nothing of the user in the kernel's space.
    assert!(bare.translate(&mem, VirtAddr(0x5_0000)).is_none());
    assert!(kernel.translate(&mem, VirtAddr(0x5_0000)).is_none());
    assert!(AddressSpace::new(&mut mem).expect("out of frames").translate(&mem, VirtAddr(text)).is_none());
}

#[test]
fn user_addresses_end_below_the_limit() {
    let (mut mem, kernel) = machine();
    let base = 0x5_0000;
    let space = user_space(&mut mem, &kernel, base, 1, PteFlags::RW | PteFlags::USER);
    let top = USER_MAX_ADDR - PAGE_SIZE;
    let high = user_space(&mut mem, &kernel, top, 1, PteFlags::RW | PteFlags::USER);
    let mut buf = vec![0u8; 4];
    // A table tells addresses apart by their low 39 bits only.
    for at in [0x80_0000_0000 + base, 0x100_0000_0000 + base, (1 << 63) + base] {
        assert!(space.copy_to_user(&mut mem, VirtAddr(at), b"data").is_none());
        assert!(space.copy_from_user(&mem, VirtAddr(at), &mut buf).is_none());
        assert_eq!(space.read_cstr(&mem, VirtAddr(at), 8), None);
        assert!(!space.writable(&mem, VirtAddr(at), 1));
    }
    assert!(space.copy_to_user(&mut mem, VirtAddr(base), b"data").is_some());
    assert!(high.copy_to_user(&mut mem, VirtAddr(USER_MAX_ADDR - 4), b"last").is_some());
    assert!(high.copy_to_user(&mut mem, VirtAddr(USER_MAX_ADDR - 2), b"past").is_none());
    high.copy_from_user(&mem, VirtAddr(USER_MAX_ADDR - 4), &mut buf).expect("readable");
    assert_eq!(&buf, b"lapa", "stored up to the limit");
}

#[test]
fn a_region_is_removed_and_mapped_again() {
    let mut mem = board();
    let mut table = PageTable::new(&mut mem).expect("out of frames");
    let before = mem.free_frames();
    for _ in 0..2 {
        for i in 0..3 {
            table.map(&mut mem, VirtPageNum(0x50 + i), PhysPageNum(0x100 + i), flags(PteFlags::RW)).expect("map");
        }
        assert!(mem.free_frames() >= before - 2, "interior tables are kept");
        let mut region =
            Region::new(VirtAddr(0x5_0000), VirtAddr(0x5_2000), Backing::Framed, flags(PteFlags::RW));
        region.unmap_from(&mut table, &mut mem);
        assert!(table.translate(&mem, VirtPageNum(0x50)).is_none());
        assert!(table.translate(&mem, VirtPageNum(0x51)).is_none());
        assert!(table.translate(&mem, VirtPageNum(0x52)).is_some(), "what is outside the region stays");
        table.unmap(&mut mem, VirtPageNum(0x52)).expect("unmap");
    }
}

#[test]
fn a_refill_takes_the_frame_that_is_next() {
    let mut mem = board();
    let next = frame::alloc_frame(&mut mem).expect("out of frames");
    frame::free_frames(&mut mem, next, 0);
    let mut heap = Heap::new();
    let ptr = heap.allocate(&mut mem, Layout { size: 8, align: 8 }).expect("heap is empty");
    assert_eq!(ptr, next.0 * PAGE_SIZE + VIRT_OFFSET);
}
