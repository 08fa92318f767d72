//! The ELF loader and the table of embedded programs.

use alexos::config::{DRAM_BASE, DRAM_SIZE, KERNEL_PHYS_BASE, PAGE_SIZE, USER_MAX_ADDR, VIRT_OFFSET};
use alexos::loader::{self, LoadError};
use alexos::mm;
use alexos::mm::addr::{PhysAddr, PhysPageNum, VirtAddr};
use alexos::mm::dram::Dram;
use alexos::mm::frame::{self, Memory};
use alexos::mm::kernel::{init_kernel_space, KernelLayout};
use alexos::mm::space::AddressSpace;
use alexos::programs::{self, Program};

fn layout() -> KernelLayout {
    let v = VIRT_OFFSET + KERNEL_PHYS_BASE;
    KernelLayout {
        text_start: v,
        text_end: v + 0x2_0000,
        rodata_start: v + 0x2_0000,
        rodata_end: v + 0x3_0000,
        data_start: v + 0x3_0000,
        data_end: v + 0x3_1000,
        bss_start: v + 0x3_1000,
        bss_end: v + 0x4_0000,
        kernel_end: v + 0xc_2000,
    }
}

fn machine() -> (Memory, AddressSpace) {
    let mut mem = Memory::new(Dram::new(PhysPageNum(DRAM_BASE / PAGE_SIZE), DRAM_SIZE / PAGE_SIZE));
    mm::init(&mut mem, VIRT_OFFSET + 0x802c_2000);
    let kernel = init_kernel_space(&mut mem, &layout()).expect("kernel space");
    (mem, kernel)
}

struct Seg {
    vaddr: u64,
    memsz: u64,
    flags: u32,
    bytes: Vec<u8>,
}

/// An executable with the given entry point and segments.
fn elf(entry: u64, segs: &[Seg]) -> Vec<u8> {
    let mut f = vec![0u8; 64];
    f[0..4].copy_from_slice(&[0x7f, b'E', b'L', b'F']);
    f[4] = 2;
    f[5] = 1;
    f[16..18].copy_from_slice(&2u16.to_le_bytes());
    f[18..20].copy_from_slice(&243u16.to_le_bytes());
    f[24..32].copy_from_slice(&entry.to_le_bytes());
    f[32..40].copy_from_slice(&64u64.to_le_bytes());
    f[54..56].copy_from_slice(&56u16.to_le_bytes());
    f[56..58].copy_from_slice(&(segs.len() as u16).to_le_bytes());
    let mut at = 64 + 56 * segs.len() as u64;
    for s in segs {
        let mut ph = vec![0u8; 56];
        ph[0..4].copy_from_slice(&1u32.to_le_bytes());
        ph[4..8].copy_from_slice(&s.flags.to_le_bytes());
        ph[8..16].copy_from_slice(&at.to_le_bytes());
        ph[16..24].copy_from_slice(&s.vaddr.to_le_bytes());
        ph[32..40].copy_from_slice(&(s.bytes.len() as u64).to_le_bytes());
        ph[40..48].copy_from_slice(&s.memsz.to_le_bytes());
        f.extend_from_slice(&ph);
        at += s.bytes.len() as u64;
    }
    for s in segs {
        f.extend_from_slice(&s.bytes);
    }
    f
}

fn hello() -> Vec<u8> {
    elf(
        0x1_0010,
        &[
            Seg { vaddr: 0x1_0000, memsz: 0x20, flags: 5, bytes: (0..0x20).collect() },
            Seg { vaddr: 0x2_0ff0, memsz: 0x1020, flags: 6, bytes: b"across a page boundary!!".to_vec() },
        ],
    )
}

fn error(image: &[u8]) -> LoadError {
    let (mut mem, kernel) = machine();
    let before = mem.free_frames();
    let e = match loader::load(&mut mem, &kernel, image) {
        Ok(_) => panic!("image was accepted"),
        Err(e) => e,
    };
    assert_eq!(mem.free_frames(), before, "a rejected image must leave no frames behind");
    e
}

#[test]
fn loader_rejects_malformed_images() {
    assert_eq!(error(&[]), LoadError::Truncated);
    assert_eq!(error(&[0u8; 64]), LoadError::BadMagic);
    let mut header = [0u8; 64];
    header[0..4].copy_from_slice(&[0x7f, b'E', b'L', b'F']);
    header[4] = 1;
    header[5] = 1;
    assert_eq!(error(&header), LoadError::WrongFormat);
}

#[test]
fn loader_rejects_other_machines() {
    let mut image = hello();
    image[18] = 62;
    assert_eq!(error(&image), LoadError::WrongFormat);
    let mut image = hello();
    image[16] = 3;
    assert_eq!(error(&image), LoadError::WrongFormat);
    let mut image = hello();
    image[5] = 2;
    assert_eq!(error(&image), LoadError::WrongFormat);
}

#[test]
fn loader_rejects_bad_segments() {
    let big = elf(0x1_0000, &[Seg { vaddr: 0x1_0000, memsz: 3, flags: 5, bytes: vec![1, 2, 3, 4] }]);
    assert_eq!(error(&big), LoadError::BadSegment);
    let null = elf(0x1_0000, &[Seg { vaddr: 0xfff, memsz: 16, flags: 5, bytes: vec![1] }]);
    assert_eq!(error(&null), LoadError::BadAddress);
    let high = elf(0x1_0000, &[Seg { vaddr: USER_MAX_ADDR - 8, memsz: 16, flags: 5, bytes: vec![1] }]);
    assert_eq!(error(&high), LoadError::BadAddress);
    let wrap = elf(0x1_0000, &[Seg { vaddr: u64::MAX - 8, memsz: 16, flags: 5, bytes: vec![1] }]);
    assert_eq!(error(&wrap), LoadError::BadAddress);
    let mut cut = hello();
    cut.truncate(64 + 56 + 20);
    assert_eq!(error(&cut), LoadError::Truncated);
    let mut short = hello();
    let n = short.len();
    short.truncate(n - 1);
    assert_eq!(error(&short), LoadError::Truncated);
}

#[test]
fn loader_runs_out_of_memory() {
    let mut mem = Memory::new(Dram::new(PhysPageNum(0x8_0000), 2048));
    frame::init(&mut mem, VIRT_OFFSET + 0x8000_0000, PhysAddr(0x8080_0000));
    let kernel = AddressSpace::new(&mut mem).unwrap();
    let huge = elf(0x1_0000, &[Seg { vaddr: 0x1_0000, memsz: 2048 * PAGE_SIZE, flags: 5, bytes: vec![1] }]);
    let before = mem.free_frames();
    match loader::load(&mut mem, &kernel, &huge) {
        Ok(_) => panic!("more pages than frames"),
        Err(e) => assert_eq!(e, LoadError::OutOfMemory),
    }
    assert_eq!(mem.free_frames(), before);
}

#[test]
fn loader_accepts_an_embedded_program() {
    let table = vec![Program { name: b"hello".to_vec(), image: hello() }];
    let (mut mem, kernel) = machine();
    for name in programs::names(&table) {
        let image = programs::find(&table, name).expect("named program is missing");
        let loaded = match loader::load(&mut mem, &kernel, image) {
            Ok(loaded) => loaded,
            Err(e) => panic!("failed to load: {:?}", e),
        };
        assert!(loaded.entry >= PAGE_SIZE, "entry is in the null page");
        assert!(loaded.brk > loaded.entry, "no break above the image");
    }
}

#[test]
fn loaded_bytes_are_those_of_the_file() {
    let (mut mem, kernel) = machine();
    let loaded = match loader::load(&mut mem, &kernel, &hello()) {
        Ok(l) => l,
        Err(e) => panic!("{:?}", e),
    };
    assert_eq!(loaded.entry, 0x1_0010);
    assert_eq!(loaded.brk, 0x2_3000);
    let mut text = vec![0u8; 0x20];
    loaded.space.copy_from_user(&mem, VirtAddr(0x1_0000), &mut text).unwrap();
    assert_eq!(text, (0..0x20).collect::<Vec<u8>>());
    let mut data = vec![0xffu8; 0x1020];
    loaded.space.copy_from_user(&mem, VirtAddr(0x2_0ff0), &mut data).unwrap();
    assert_eq!(&data[..24], b"across a page boundary!!");
    assert!(data[24..].iter().all(|&b| b == 0));
    // Permissions are the segment's: text cannot be written, data can.
    assert!(loaded.space.copy_to_user(&mut mem, VirtAddr(0x1_0000), &[1]).is_none());
    assert!(loaded.space.copy_to_user(&mut mem, VirtAddr(0x2_1000), &[1]).is_some());
    // Page zero stays unmapped.
    let mut null = vec![0u8; 1];
    assert!(loaded.space.copy_from_user(&mem, VirtAddr(0), &mut null).is_none());
}

#[test]
fn programs_are_found_by_name() {
    let table = vec![
        Program { name: b"init".to_vec(), image: vec![1] },
        Program { name: b"sh".to_vec(), image: vec![2, 2] },
    ];
    assert_eq!(programs::count(&table), 2);
    assert_eq!(programs::find(&table, b"sh"), Some(&[2u8, 2][..]));
    assert_eq!(programs::find(&table, b"/sh"), Some(&[2u8, 2][..]));
    assert_eq!(programs::find(&table, b"//sh"), None);
    assert_eq!(programs::find(&table, b"shell"), None);
    assert_eq!(programs::find(&table, b""), None);
    let names: Vec<&[u8]> = programs::names(&table).iter().map(|n| n.as_slice()).collect();
    assert_eq!(names, vec![&b"init"[..], &b"sh"[..]]);
}
