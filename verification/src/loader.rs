//! Minimal ELF64 loader.
//!
//! Only what a static RISC-V executable needs: parse the header, walk the
//! program headers, and copy every `PT_LOAD` segment into a fresh address space
//! with the permissions the segment asks for. No dynamic linking, no relocations
//! -- user programs are linked at a fixed base.
//!
//! The input is a file, and so not to be trusted: every field is read out of a
//! bounds-checked slice, and a misaligned or truncated header is an error.

use vstd::prelude::*;
use crate::bits;
use crate::config::{PAGE_SIZE, USER_MAX_ADDR};
use crate::mm::addr::{self, VirtAddr};
use crate::mm::frame::Memory;
use crate::mm::page_table::{self, Mark, MapError, PteFlags};
use crate::mm::space::{self, AddressSpace, Backing, Region};

verus! {

/// 64-bit object.
pub const ELFCLASS64: u8 = 2;

/// Little-endian.
pub const ELFDATA2LSB: u8 = 1;

/// Executable file (as opposed to a shared object or relocatable).
pub const ET_EXEC: u64 = 2;

/// RISC-V.
pub const EM_RISCV: u64 = 243;

/// Program header type for a loadable segment.
pub const PT_LOAD: u64 = 1;

/// Why an image could not be loaded.
#[derive(Debug, Clone, Copy, PartialEq, Eq, Structural)]
pub enum LoadError {
    /// Too short to contain the structure being read.
    Truncated,
    /// Not an ELF file.
    BadMagic,
    /// Not a 64-bit little-endian RISC-V executable.
    WrongFormat,
    /// A segment lies outside the user half of the address space.
    BadAddress,
    /// A segment's file size exceeds its memory size.
    BadSegment,
    /// Out of memory building the address space.
    OutOfMemory,
}

/// Read a little-endian integer of `n` bytes from `data` at `offset`.
fn read_int(data: &[u8], offset: u64, n: u64) -> (r: Result<u64, LoadError>)
    requires
        n <= 8,
    ensures
        match r {
            Ok(v) => offset + n <= data@.len() && v == bits::le(data@, offset as int, n as int),
            Err(e) => offset + n > data@.len() && e == LoadError::Truncated,
        },
{
    let len: usize = data.len();
    if offset > len as u64 || n > len as u64 - offset {
        return Err(LoadError::Truncated);
    }
    Ok(bits::read_le(data, offset as usize, n as usize))
}

/// What the file header says.
pub struct Header {
    /// Value for `sepc`.
    pub entry: u64,
    /// Where the program headers start in the file.
    pub phoff: u64,
    /// Size of one program header.
    pub phentsize: u64,
    /// Number of program headers.
    pub phnum: u64,
}

/// What the header of `image` is read as.
pub open spec fn header_of(image: Seq<u8>) -> Result<Header, LoadError> {
    if image.len() < 64 {
        Err(LoadError::Truncated)
    } else if !(image[0] == 0x7f && image[1] == 0x45 && image[2] == 0x4c && image[3] == 0x46) {
        Err(LoadError::BadMagic)
    } else if image[4] != ELFCLASS64 || image[5] != ELFDATA2LSB {
        Err(LoadError::WrongFormat)
    } else if bits::le(image, 16, 2) != ET_EXEC || bits::le(image, 18, 2) != EM_RISCV {
        Err(LoadError::WrongFormat)
    } else {
        Ok(
            Header {
                entry: bits::le(image, 24, 8) as u64,
                phoff: bits::le(image, 32, 8) as u64,
                phentsize: bits::le(image, 54, 2) as u64,
                phnum: bits::le(image, 56, 2) as u64,
            },
        )
    }
}

/// Read and check the file header.
pub fn parse_header(image: &[u8]) -> (r: Result<Header, LoadError>)
    ensures
        r == header_of(image@),
        r matches Ok(h) ==> h.phentsize < 65536 && h.phnum < 65536,
{
    if image.len() < 64 {
        return Err(LoadError::Truncated);
    }
    if !(image[0] == 0x7f && image[1] == 0x45 && image[2] == 0x4c && image[3] == 0x46) {
        return Err(LoadError::BadMagic);
    }
    if image[4] != ELFCLASS64 || image[5] != ELFDATA2LSB {
        return Err(LoadError::WrongFormat);
    }
    proof {
        bits::lemma_le_bound(image@, 54, 2);
        bits::lemma_le_bound(image@, 56, 2);
        reveal_with_fuel(bits::pow256, 3);
    }
    let e_type: u64 = read_int(image, 16, 2)?;
    let e_machine: u64 = read_int(image, 18, 2)?;
    if e_type != ET_EXEC || e_machine != EM_RISCV {
        return Err(LoadError::WrongFormat);
    }
    let entry: u64 = read_int(image, 24, 8)?;
    let phoff: u64 = read_int(image, 32, 8)?;
    let phentsize: u64 = read_int(image, 54, 2)?;
    let phnum: u64 = read_int(image, 56, 2)?;
    Ok(Header { entry, phoff, phentsize, phnum })
}

/// A loadable segment.
pub struct Segment {
    /// Address in memory.
    pub vaddr: u64,
    /// One past its last address.
    pub end: u64,
    /// Where its bytes start in the file.
    pub offset: u64,
    /// How many bytes the file has for it.
    pub filesz: u64,
    /// Permissions of its pages.
    pub perm: u64,
}

impl Segment {
    /// First page.
    pub open spec fn first(self) -> int {
        addr::page_floor(self.vaddr as int) / 4096
    }

    /// One past the last page.
    pub open spec fn last(self) -> int {
        addr::page_ceil(self.end as int) / 4096
    }
}

/// The permissions that segment flags ask for: user, and readable, writable and
/// executable as bits 2, 1 and 0 say.
pub open spec fn segment_perm(flags: int) -> int {
    16 + (if (flags / 4) % 2 == 1 {
        2int
    } else {
        0
    }) + (if (flags / 2) % 2 == 1 {
        4int
    } else {
        0
    }) + (if flags % 2 == 1 {
        8int
    } else {
        0
    })
}

/// What the program header at file offset `ph` is read as: nothing unless it is
/// loadable.
pub open spec fn segment_at(image: Seq<u8>, ph: int) -> Result<Option<Segment>, LoadError> {
    let vaddr = bits::le(image, ph + 16, 8);
    let filesz = bits::le(image, ph + 32, 8);
    let memsz = bits::le(image, ph + 40, 8);
    let offset = bits::le(image, ph + 8, 8);
    if ph + 4 > image.len() {
        Err(LoadError::Truncated)
    } else if bits::le(image, ph, 4) != PT_LOAD {
        Ok(None)
    } else if ph + 48 > image.len() {
        Err(LoadError::Truncated)
    } else if filesz > memsz {
        Err(LoadError::BadSegment)
    } else if vaddr + memsz > USER_MAX_ADDR || vaddr < PAGE_SIZE {
        Err(LoadError::BadAddress)
    } else if offset + filesz > image.len() {
        Err(LoadError::Truncated)
    } else {
        Ok(
            Some(
                Segment {
                    vaddr: vaddr as u64,
                    end: (vaddr + memsz) as u64,
                    offset: offset as u64,
                    filesz: filesz as u64,
                    perm: segment_perm(bits::le(image, ph + 4, 4)) as u64,
                },
            ),
        )
    }
}

proof fn lemma_perm_bits(flags: u64, r: u64, w: u64, x: u64)
    by (bit_vector)
    ensures
        (flags & 4 != 0) == ((flags / 4) % 2 == 1),
        (flags & 2 != 0) == ((flags / 2) % 2 == 1),
        (flags & 1 != 0) == (flags % 2 == 1),
        16u64 | 2 == 18,
        16u64 | 4 == 20,
        18u64 | 4 == 22,
        16u64 | 8 == 24,
        18u64 | 8 == 26,
        20u64 | 8 == 28,
        22u64 | 8 == 30,
{
}

/// Read and check the program header at file offset `ph`.
pub fn parse_segment(image: &[u8], ph: u64) -> (r: Result<Option<Segment>, LoadError>)
    ensures
        r == segment_at(image@, ph as int),
{
    let p_type: u64 = read_int(image, ph, 4)?;
    if p_type != PT_LOAD {
        return Ok(None);
    }
    if ph > image.len() as u64 {
        return Err(LoadError::Truncated);
    }
    let left: u64 = image.len() as u64 - ph;
    if left < 48 {
        return Err(LoadError::Truncated);
    }
    proof {
        bits::lemma_le_bound(image@, ph + 4, 4);
        bits::lemma_le_bound(image@, ph + 8, 8);
        bits::lemma_le_bound(image@, ph + 16, 8);
        bits::lemma_le_bound(image@, ph + 32, 8);
        bits::lemma_le_bound(image@, ph + 40, 8);
        bits::lemma_pow256(8);
    }
    let p_flags: u64 = read_int(image, ph + 4, 4)?;
    let p_offset: u64 = read_int(image, ph + 8, 8)?;
    let p_vaddr: u64 = read_int(image, ph + 16, 8)?;
    let p_filesz: u64 = read_int(image, ph + 32, 8)?;
    let p_memsz: u64 = read_int(image, ph + 40, 8)?;
    // A segment claiming more file bytes than memory bytes would have the copy
    // run past the region allocated for it.
    if p_filesz > p_memsz {
        return Err(LoadError::BadSegment);
    }
    let end: u64 = match p_vaddr.checked_add(p_memsz) {
        Some(end) => end,
        None => {
            return Err(LoadError::BadAddress);
        },
    };
    // Above the user half, or overlapping the guard page at zero that makes a
    // null dereference fault.
    if end > USER_MAX_ADDR || p_vaddr < PAGE_SIZE {
        return Err(LoadError::BadAddress);
    }
    let file_end: u64 = match p_offset.checked_add(p_filesz) {
        Some(end) => end,
        None => {
            return Err(LoadError::Truncated);
        },
    };
    if file_end > image.len() as u64 {
        return Err(LoadError::Truncated);
    }
    proof {
        lemma_perm_bits(p_flags, 0, 0, 0);
        page_table::lemma_flag_bits(0);
    }
    let mut perm: u64 = PteFlags::USER;
    if p_flags & 4 != 0 {
        perm = perm | PteFlags::READ;
    }
    if p_flags & 2 != 0 {
        perm = perm | PteFlags::WRITE;
    }
    if p_flags & 1 != 0 {
        perm = perm | PteFlags::EXEC;
    }
    Ok(Some(Segment { vaddr: p_vaddr, end, offset: p_offset, filesz: p_filesz, perm }))
}

/// Where program header `i` starts in the file.
pub open spec fn header_offset(h: Header, i: int) -> int {
    h.phoff + i * h.phentsize
}

/// The loadable segments among the first `n` program headers.
pub open spec fn segments(image: Seq<u8>, h: Header, n: int) -> Seq<Segment>
    decreases n,
{
    if n <= 0 {
        Seq::empty()
    } else {
        match segment_at(image, header_offset(h, n - 1)) {
            Ok(Some(g)) => segments(image, h, n - 1).push(g),
            _ => segments(image, h, n - 1),
        }
    }
}

/// What loading comes to.
pub struct Outcome {
    /// Value for `sepc`.
    pub entry: int,
    /// End of the segments.
    pub brk: int,
    /// Leaves of the new space.
    pub leaves: Seq<Mark>,
    /// Frames that are left.
    pub free: int,
}

/// The outcome of loading the segments from program header `i` on into a space
/// that holds `leaves`, out of `free` frames, where `brk` is the end of what was
/// loaded before; or the first error.
pub open spec fn load_from(
    image: Seq<u8>,
    h: Header,
    i: int,
    leaves: Seq<Mark>,
    free: int,
    brk: int,
) -> Result<Outcome, LoadError>
    decreases h.phnum - i,
{
    if i >= h.phnum {
        if brk == 0 {
            Err(LoadError::BadSegment)
        } else {
            Ok(Outcome { entry: h.entry as int, brk, leaves, free })
        }
    } else {
        match segment_at(image, header_offset(h, i)) {
            Err(e) => Err(e),
            Ok(None) => load_from(image, h, i + 1, leaves, free, brk),
            Ok(Some(g)) => {
                let plan = space::install(leaves, Backing::Framed, g.first(), g.last(), free);
                let end = addr::page_ceil(g.end as int);
                if plan.result is Err {
                    Err(LoadError::OutOfMemory)
                } else {
                    load_from(
                        image,
                        h,
                        i + 1,
                        plan.leaves,
                        plan.free,
                        if end > brk {
                            end
                        } else {
                            brk
                        },
                    )
                }
            },
        }
    }
}

/// The outcome of loading `image` with `free` frames to hand, or the first error.
pub open spec fn load_result(image: Seq<u8>, free: int) -> Result<Outcome, LoadError> {
    match header_of(image) {
        Err(e) => Err(e),
        Ok(h) => if free <= 0 {
            Err(LoadError::OutOfMemory)
        } else {
            load_from(image, h, 0, Seq::empty(), free - 1, 0)
        },
    }
}

/// Region `r` is segment `g`: it spans its pages with its permissions, and holds
/// its bytes of the file and zeros around them.
pub open spec fn carries(r: Region, mem: Memory, image: Seq<u8>, g: Segment) -> bool {
    &&& r.spec_start() == addr::page_floor(g.vaddr as int)
    &&& r.spec_end() == addr::page_ceil(g.end as int)
    &&& r.spec_perm() == g.perm
    &&& forall|k: int|
        0 <= k < r.pages() * PAGE_SIZE ==> #[trigger] r.byte(mem, k) == (if g.vaddr % 4096 <= k < g.vaddr % 4096
            + g.filesz {
            image[g.offset + k - g.vaddr % 4096]
        } else {
            0
        })
}

/// The regions of `s` are the segments `segs`, in order.
pub open spec fn carries_all(s: AddressSpace, mem: Memory, image: Seq<u8>, segs: Seq<Segment>) -> bool {
    &&& s.regions().len() == segs.len()
    &&& forall|k: int| 0 <= k < segs.len() ==> carries(#[trigger] s.regions()[k], mem, image, segs[k])
}

/// A loaded program: its address space and where to start executing.
pub struct LoadedImage {
    /// The new address space, with every `PT_LOAD` segment mapped.
    pub space: AddressSpace,
    /// Value for `sepc`.
    pub entry: u64,
    /// First page-aligned address above every segment, where the heap starts.
    pub brk: u64,
}

impl LoadedImage {
    /// What a program that was loaded from `image` is.
    pub open spec fn of(&self, mem: Memory, image: Seq<u8>) -> bool {
        let h = header_of(image)->Ok_0;
        carries_all(self.space, mem, image, segments(image, h, h.phnum as int))
    }
}

/// What a loaded segment satisfies.
proof fn lemma_segment(image: Seq<u8>, ph: int)
    ensures
        segment_at(image, ph) matches Ok(Some(g)) ==> {
            &&& PAGE_SIZE <= g.vaddr <= g.end <= USER_MAX_ADDR
            &&& g.filesz <= g.end - g.vaddr
            &&& g.offset + g.filesz <= image.len()
            &&& g.perm < 32
            &&& g.perm >= 16
            &&& g.vaddr % 4096 + g.filesz <= addr::page_ceil(g.end as int) - addr::page_floor(g.vaddr as int)
            &&& addr::page_ceil(g.end as int) <= USER_MAX_ADDR
            &&& addr::page_ceil(g.end as int) % 4096 == 0
            &&& addr::page_floor(g.vaddr as int) % 4096 == 0
            &&& addr::page_ceil(g.end as int) > 0
        },
{
    bits::lemma_le_bound(image, ph + 8, 8);
    bits::lemma_le_bound(image, ph + 16, 8);
    bits::lemma_le_bound(image, ph + 32, 8);
    bits::lemma_le_bound(image, ph + 40, 8);
    bits::lemma_pow256(8);
}

/// The bytes of `image` from `from` up to `to`.
fn part(image: &[u8], from: u64, to: u64) -> (r: Vec<u8>)
    requires
        from <= to <= image@.len(),
    ensures
        r@ == image@.subrange(from as int, to as int),
{
    let len: usize = image.len();
    let mut r: Vec<u8> = Vec::new();
    let mut i: u64 = from;
    while i < to
        invariant
            from <= i <= to <= len == image@.len(),
            r@ == image@.subrange(from as int, i as int),
        decreases to - i,
    {
        r.push(image[i as usize]);
        i = i + 1;
        proof {
            assert(image@.subrange(from as int, i as int) =~= image@.subrange(from as int, i - 1).push(
                image@[i - 1],
            ));
        }
    }
    r
}

/// Map one segment into `space` and fill it.
fn load_segment(space: &mut AddressSpace, mem: &mut Memory, image: &[u8], g: &Segment) -> (r: Result<
    (),
    MapError,
>)
    requires
        old(mem).wf(),
        old(space).wf(*old(mem)),
        exists|ph: int| segment_at(image@, ph) == Ok::<Option<Segment>, LoadError>(Some(*g)),
    ensures
        final(mem).wf(),
        exists|region: Region|
            region.wf() && region.lower() && region.spec_backing() == Backing::Framed && region.first() == g.first()
                && region.last() == g.last() && #[trigger] final(space).pushed(
                *final(mem),
                *old(space),
                *old(mem),
                region,
                r,
            ),
        r is Ok ==> carries(final(space).regions().last(), *final(mem), image@, *g),
{
    proof {
        let ph = choose|ph: int| segment_at(image@, ph) == Ok::<Option<Segment>, LoadError>(Some(*g));
        lemma_segment(image@, ph);
    }
    let region: Region = Region::new(
        VirtAddr(g.vaddr),
        VirtAddr(g.end),
        Backing::Framed,
        PteFlags(g.perm),
    );
    let ghost r0 = region;
    let len: usize = image.len();
    assert(g.offset + g.filesz <= len);
    let data: Vec<u8> = part(image, g.offset, g.offset + g.filesz);
    // Frames arrive zeroed, so the .bss tail of a segment -- what its memory has
    // beyond the file -- needs no explicit clearing.
    let r = space.push_with_offset(mem, region, g.vaddr % PAGE_SIZE, data.as_slice());
    proof {
        if r is Ok {
            let l = space.regions().last();
            assert(l.same_range(r0));
            assert forall|k: int| 0 <= k < l.pages() * PAGE_SIZE implies #[trigger] l.byte(*mem, k) == (
            if g.vaddr % 4096 <= k < g.vaddr % 4096 + g.filesz {
                image@[g.offset + k - g.vaddr % 4096]
            } else {
                0
            }) by {}
        }
    }
    r
}

/// Parse `image` and build an address space containing it.
pub fn load(mem: &mut Memory, kernel: &AddressSpace, image: &[u8]) -> (r: Result<LoadedImage, LoadError>)
    requires
        old(mem).wf(),
        kernel.wf(*old(mem)),
        kernel.supervisor(*old(mem)),
    ensures
        final(mem).wf(),
        kernel.wf(*final(mem)),
        kernel.supervisor(*final(mem)),
        match load_result(image@, old(mem).free()) {
            Ok(o) => {
                &&& r is Ok
                &&& r->Ok_0.entry == o.entry
                &&& r->Ok_0.brk == o.brk
                &&& r->Ok_0.space.leaves() == o.leaves
                &&& final(mem).free() == o.free
                &&& final(mem).drew(*old(mem))
                &&& r->Ok_0.of(*final(mem), image@)
                &&& r->Ok_0.space.wf(*final(mem))
                &&& r->Ok_0.space.built(*final(mem), *old(mem), *kernel)
            },
            Err(e) => {
                &&& r is Err
                &&& r->Err_0 == e
                &&& final(mem).grew(*old(mem), Set::empty())
                &&& final(mem).same_but(*old(mem), Set::empty())
            },
        },
{
    let ghost m0 = *mem;
    proof {
        m0.lemma_grew_none(m0);
    }
    let h: Header = match parse_header(image) {
        Ok(h) => h,
        Err(e) => {
            return Err(e);
        },
    };
    let mut space: AddressSpace = match AddressSpace::with_kernel_half(mem, kernel) {
        Some(space) => space,
        None => {
            return Err(LoadError::OutOfMemory);
        },
    };
    let len: usize = image.len();
    let mut brk: u64 = 0;
    let mut i: u64 = 0;
    let mut failed: Option<LoadError> = None;
    while i < h.phnum && failed.is_none()
        invariant
            m0.wf(),
            mem.wf(),
            m0 == *old(mem),
            len == image@.len(),
            kernel.wf(m0),
            kernel.supervisor(m0),
            m0.free() > 0,
            header_of(image@) == Ok::<Header, LoadError>(h),
            i <= h.phnum < 65536,
            h.phentsize < 65536,
            space.built(*mem, m0, *kernel),
            match failed {
                None => {
                    &&& space.wf(*mem)
                    &&& mem.drew(m0)
                    &&& carries_all(space, *mem, image@, segments(image@, h, i as int))
                    &&& load_from(image@, h, 0, Seq::empty(), m0.free() - 1, 0) == load_from(
                        image@,
                        h,
                        i as int,
                        space.leaves(),
                        mem.free(),
                        brk as int,
                    )
                },
                Some(e) => load_from(image@, h, 0, Seq::empty(), m0.free() - 1, 0) == Err::<Outcome, LoadError>(e),
            },
        decreases
            h.phnum - i,
            (if failed is None {
                1int
            } else {
                0
            }),
    {
        proof {
            assert(0 <= i * h.phentsize < 65536 * 65536) by (nonlinear_arith)
                requires
                    0 <= i < 65536,
                    0 <= h.phentsize < 65536,
            ;
        }
        let ph: u64 = match h.phoff.checked_add(i * h.phentsize) {
            Some(ph) => ph,
            None => {
                failed = Some(LoadError::Truncated);
                continue;
            },
        };
        let parsed: Result<Option<Segment>, LoadError> = parse_segment(image, ph);
        match parsed {
            Err(e) => {
                failed = Some(e);
            },
            Ok(None) => {
                i = i + 1;
            },
            Ok(Some(g)) => {
                let ghost m1 = *mem;
                let ghost s1 = space;
                proof {
                    assert(segment_at(image@, ph as int) == Ok::<Option<Segment>, LoadError>(Some(g)));
                    lemma_segment(image@, ph as int);
                }
                let r = load_segment(&mut space, mem, image, &g);
                proof {
                    let region = choose|region: Region|
                        region.wf() && region.lower() && region.spec_backing() == Backing::Framed && region.first() == g.first()
                            && region.last() == g.last() && #[trigger] space.pushed(*mem, s1, m1, region, r);
                    space.lemma_built_push(*mem, s1, m1, m0, *kernel, region, r);
                }
                if r.is_err() {
                    failed = Some(LoadError::OutOfMemory);
                } else {
                    let end: u64 = VirtAddr(g.end).align_up().0;
                    if end > brk {
                        brk = end;
                    }
                    i = i + 1;
                    proof {
                        lemma_carried(space, *mem, s1, m1, image@, segments(image@, h, i - 1), g);
                        mem.lemma_drew_twice(m1, m0);
                    }
                }
            },
        }
    }
    if failed.is_none() && brk == 0 {
        failed = Some(LoadError::BadSegment);
    }
    if let Some(e) = failed {
        let ghost m1 = *mem;
        let ghost s1 = space;
        space.release(mem);
        proof {
            s1.lemma_built_released(*mem, m1, m0, *kernel);
            kernel.lemma_outlives(m0, *mem, Set::empty());
        }
        return Err(e);
    }
    proof {
        kernel.lemma_outlives(m0, *mem, space.footprint());
    }
    Ok(LoadedImage { space, entry: h.entry, brk })
}

/// What was loaded stays as one more segment is.
proof fn lemma_carried(
    s: AddressSpace,
    mem: Memory,
    s0: AddressSpace,
    m0: Memory,
    image: Seq<u8>,
    segs: Seq<Segment>,
    g: Segment,
)
    requires
        m0.wf(),
        mem.wf(),
        s0.wf(m0),
        s0.is_user(),
        s.wf(mem),
        s.regions().len() == s0.regions().len() + 1,
        s.regions().drop_last() == s0.regions(),
        mem.same_but(m0, s0.spec_table().own()),
        forall|f: int| m0.used(f) ==> #[trigger] mem.used(f),
        carries_all(s0, m0, image, segs),
        carries(s.regions().last(), mem, image, g),
    ensures
        carries_all(s, mem, image, segs.push(g)),
{
    assert forall|k: int| 0 <= k < segs.len() + 1 implies carries(
        #[trigger] s.regions()[k],
        mem,
        image,
        segs.push(g)[k],
    ) by {
        if k < segs.len() {
            let r = s.regions()[k];
            assert(r == s.regions().drop_last()[k]);
            assert(r == s0.regions()[k]);
            assert(s0.region_ok(m0, k));
            r.lemma_owned(m0);
            assert forall|j: int| 0 <= j < r.pages() * PAGE_SIZE implies #[trigger] r.byte(mem, j) == r.byte(
                m0,
                j,
            ) by {
                lemma_byte_kept(s0, mem, m0, k, j);
            }
        }
    }
}

/// A byte of a region outlives changes to the tables.
pub proof fn lemma_byte_kept(s0: AddressSpace, mem: Memory, m0: Memory, k: int, j: int)
    requires
        m0.wf(),
        s0.wf(m0),
        0 <= k < s0.regions().len(),
        s0.regions()[k].spec_backing() == Backing::Framed,
        0 <= j < s0.regions()[k].pages() * PAGE_SIZE,
        mem.same_but(m0, s0.spec_table().own()),
        forall|f: int| m0.used(f) ==> #[trigger] mem.used(f),
    ensures
        s0.regions()[k].byte(mem, j) == s0.regions()[k].byte(m0, j),
{
    let r = s0.regions()[k];
    s0.lemma_full(m0, k);
    assert(s0.region_ok(m0, k));
    r.lemma_owned(m0);
    let p = r.frames()[j / 4096];
    m0.lemma_owns_frame(p);
    assert(r.frames().to_set().contains(p));
    assert(mem.same_frame(m0, p));
}

/// The segments are well-formed.
pub proof fn lemma_segments(image: Seq<u8>, h: Header, n: int, k: int)
    requires
        0 <= k < segments(image, h, n).len(),
    ensures
        ({
            let g = segments(image, h, n)[k];
            &&& PAGE_SIZE <= g.vaddr <= g.end <= USER_MAX_ADDR
            &&& g.filesz <= g.end - g.vaddr
            &&& g.offset + g.filesz <= image.len()
            &&& g.perm < 32
            &&& g.perm >= 16
        }),
    decreases n,
{
    if n > 0 {
        lemma_segment(image, header_offset(h, n - 1));
        if k < segments(image, h, n - 1).len() {
            lemma_segments(image, h, n - 1, k);
        }
    }
}

/// A loaded program finds each segment of its file at the address the segment
/// names: the bytes of the file, then zeros. The segment's flags decide how it
/// may be accessed.
pub proof fn law_loaded_bytes(l: LoadedImage, mem: Memory, image: Seq<u8>, k: int, x: int)
    requires
        mem.wf(),
        header_of(image) is Ok,
        l.space.wf(mem),
        l.space.is_user(),
        l.of(mem, image),
        0 <= k < segments(image, header_of(image)->Ok_0, header_of(image)->Ok_0.phnum as int).len(),
        ({
            let g = segments(image, header_of(image)->Ok_0, header_of(image)->Ok_0.phnum as int)[k];
            g.vaddr <= x < g.end
        }),
    ensures
        ({
            let g = segments(image, header_of(image)->Ok_0, header_of(image)->Ok_0.phnum as int)[k];
            &&& l.space.access(mem, x, 0)
            &&& l.space.access(mem, x, 2) == ((g.perm / 2) % 2 == 1)
            &&& l.space.access(mem, x, 4) == ((g.perm / 4) % 2 == 1)
            &&& l.space.access(mem, x, 8) == ((g.perm / 8) % 2 == 1)
            &&& l.space.ubyte(mem, x) == (if x < g.vaddr + g.filesz {
                image[g.offset + x - g.vaddr]
            } else {
                0
            })
        }),
{
    let h = header_of(image)->Ok_0;
    let g = segments(image, h, h.phnum as int)[k];
    lemma_segments(image, h, h.phnum as int, k);
    let r = l.space.regions()[k];
    assert(carries(r, mem, image, g));
    l.space.lemma_in_region(mem, k, x);
    page_table::lemma_flag_bits(g.perm);
    let j = x - r.spec_start();
    assert(0 <= j < r.pages() * PAGE_SIZE);
    assert(r.byte(mem, j) == l.space.ubyte(mem, x));
    assert(j == x - g.vaddr + g.vaddr % 4096);
}

/// The heap of a loaded program starts on a page boundary above every segment,
/// inside the user half.
pub proof fn law_brk_is_above_segments(image: Seq<u8>, free: int, k: int)
    requires
        load_result(image, free) is Ok,
        0 <= k < segments(image, header_of(image)->Ok_0, header_of(image)->Ok_0.phnum as int).len(),
    ensures
        ({
            let brk = load_result(image, free)->Ok_0.brk;
            let g = segments(image, header_of(image)->Ok_0, header_of(image)->Ok_0.phnum as int)[k];
            g.end <= brk <= USER_MAX_ADDR && brk % 4096 == 0
        }),
{
    let h = header_of(image)->Ok_0;
    lemma_brk(image, h, 0, Seq::empty(), free - 1, 0);
    assert(segments(image, h, 0) =~= Seq::empty());
}

/// The heap of a loaded program starts on a page boundary inside the user half.
pub proof fn lemma_brk_page(image: Seq<u8>, free: int)
    requires
        load_result(image, free) is Ok,
    ensures
        0 < load_result(image, free)->Ok_0.brk <= USER_MAX_ADDR,
        load_result(image, free)->Ok_0.brk % 4096 == 0,
{
    let h = header_of(image)->Ok_0;
    lemma_brk(image, h, 0, Seq::empty(), free - 1, 0);
    assert(segments(image, h, 0) =~= Seq::empty());
}

proof fn lemma_brk(image: Seq<u8>, h: Header, i: int, leaves: Seq<Mark>, free: int, brk: int)
    requires
        0 <= i <= h.phnum,
        load_from(image, h, i, leaves, free, brk) is Ok,
        0 <= brk <= USER_MAX_ADDR,
        brk % 4096 == 0,
        forall|k: int|
            0 <= k < segments(image, h, i).len() ==> (#[trigger] segments(image, h, i)[k]).end <= brk,
    ensures
        ({
            let top = load_from(image, h, i, leaves, free, brk)->Ok_0.brk;
            &&& brk <= top <= USER_MAX_ADDR
            &&& top % 4096 == 0
            &&& 0 < top
            &&& forall|k: int|
                0 <= k < segments(image, h, h.phnum as int).len() ==> (#[trigger] segments(
                    image,
                    h,
                    h.phnum as int,
                )[k]).end <= top
        }),
    decreases h.phnum - i,
{
    if i < h.phnum {
        lemma_segment(image, header_offset(h, i));
        match segment_at(image, header_offset(h, i)) {
            Ok(Some(g)) => {
                let plan = space::install(leaves, Backing::Framed, g.first(), g.last(), free);
                let end = addr::page_ceil(g.end as int);
                let next = if end > brk {
                    end
                } else {
                    brk
                };
                assert(segments(image, h, i + 1) == segments(image, h, i).push(g));
                lemma_brk(image, h, i + 1, plan.leaves, plan.free, next);
            },
            _ => {
                assert(segments(image, h, i + 1) == segments(image, h, i));
                lemma_brk(image, h, i + 1, leaves, free, brk);
            },
        }
    }
}

/// A file is taken for a program exactly if it is long enough for a header and the header
/// says that it is a 64-bit little-endian executable for RISC-V. Which of these fails is what
/// the error says.
pub proof fn law_only_riscv_executables_are_accepted(image: Seq<u8>)
    ensures
        ({
            let long = image.len() >= 64;
            let elf = image[0] == 0x7f && image[1] == 0x45 && image[2] == 0x4c && image[3] == 0x46;
            let format = image[4] == 2 && image[5] == 1 && image[16] == 2 && image[17] == 0 && image[18] == 243
                && image[19] == 0;
            &&& header_of(image) is Ok <==> long && elf && format
            &&& !long ==> header_of(image) == Err::<Header, LoadError>(LoadError::Truncated)
            &&& long && !elf ==> header_of(image) == Err::<Header, LoadError>(LoadError::BadMagic)
            &&& long && elf && !format ==> header_of(image) == Err::<Header, LoadError>(LoadError::WrongFormat)
        }),
{
    reveal_with_fuel(bits::le, 3);
}

/// Where the header of a program says that things are: the entry point is in bytes 24 to
/// 31, the offset of the program headers in bytes 32 to 39, the size of each in bytes 54
/// and 55 and their number in bytes 56 and 57.
pub proof fn law_header_fields(image: Seq<u8>)
    requires
        header_of(image) is Ok,
    ensures
        header_of(image)->Ok_0.entry == bits::le(image, 24, 8),
        header_of(image)->Ok_0.phoff == bits::le(image, 32, 8),
        header_of(image)->Ok_0.phentsize == image[54] + 256 * image[55],
        header_of(image)->Ok_0.phnum == image[56] + 256 * image[57],
{
    bits::lemma_le_bound(image, 24, 8);
    bits::lemma_le_bound(image, 32, 8);
    bits::lemma_pow256(8);
    reveal_with_fuel(bits::le, 3);
}

/// A program header is skipped unless its type is 1. One of that type is a segment if its
/// bytes are in the file, it has no more of them than it has memory, and its memory lies
/// between the first page and the end of the user half.
pub proof fn law_segments_are_checked(image: Seq<u8>, ph: int)
    requires
        0 <= ph,
    ensures
        ({
            let offset = bits::le(image, ph + 8, 8);
            let vaddr = bits::le(image, ph + 16, 8);
            let filesz = bits::le(image, ph + 32, 8);
            let memsz = bits::le(image, ph + 40, 8);
            let load = image[ph] == 1 && image[ph + 1] == 0 && image[ph + 2] == 0 && image[ph + 3] == 0;
            &&& segment_at(image, ph) == Ok::<Option<Segment>, LoadError>(None) <==> ph + 4 <= image.len() && !load
            &&& segment_at(image, ph) matches Ok(Some(g)) ==> {
                &&& load
                &&& g.vaddr == vaddr
                &&& g.end == vaddr + memsz
                &&& g.offset == offset
                &&& g.filesz == filesz
                &&& g.perm == 16 + (if (image[ph + 4] / 4) % 2 == 1 {
                    2int
                } else {
                    0
                }) + (if (image[ph + 4] / 2) % 2 == 1 {
                    4int
                } else {
                    0
                }) + (if image[ph + 4] % 2 == 1 {
                    8int
                } else {
                    0
                })
            }
            &&& ph + 48 <= image.len() && load ==> {
                &&& segment_at(image, ph) is Ok <==> filesz <= memsz && 4096 <= vaddr && vaddr + memsz
                    <= 0x40_0000_0000 && offset + filesz <= image.len()
                &&& filesz > memsz ==> segment_at(image, ph) == Err::<Option<Segment>, LoadError>(
                    LoadError::BadSegment,
                )
                &&& filesz <= memsz && (vaddr < 4096 || vaddr + memsz > 0x40_0000_0000) ==> segment_at(image, ph)
                    == Err::<Option<Segment>, LoadError>(LoadError::BadAddress)
            }
            &&& ph + 48 > image.len() && (load || ph + 4 > image.len()) ==> segment_at(image, ph) == Err::<
                Option<Segment>,
                LoadError,
            >(LoadError::Truncated)
        }),
{
    bits::lemma_le_bound(image, ph + 8, 8);
    bits::lemma_le_bound(image, ph + 16, 8);
    bits::lemma_le_bound(image, ph + 32, 8);
    bits::lemma_le_bound(image, ph + 40, 8);
    bits::lemma_pow256(8);
    lemma_first_byte(image, ph);
    lemma_first_byte(image, ph + 4);
}

/// Four bytes are the number 1 exactly if the first is 1 and the others are 0; the low bits
/// of the number are those of the first byte.
proof fn lemma_first_byte(image: Seq<u8>, at: int)
    ensures
        (bits::le(image, at, 4) == 1) == (image[at] == 1 && image[at + 1] == 0 && image[at + 2] == 0 && image[at + 3]
            == 0),
        bits::le(image, at, 4) % 2 == image[at] % 2,
        (bits::le(image, at, 4) / 2) % 2 == (image[at] / 2) % 2,
        (bits::le(image, at, 4) / 4) % 2 == (image[at] / 4) % 2,
{
    reveal_with_fuel(bits::le, 5);
    let n = bits::le(image, at, 4);
    assert(n == image[at] + 256 * image[at + 1] + 65536 * image[at + 2] + 16777216 * image[at + 3]);
}

/// The loadable segment of header `i` is among the segments.
pub proof fn lemma_segment_listed(image: Seq<u8>, h: Header, n: int, i: int) -> (k: int)
    requires
        0 <= i < n,
        segment_at(image, header_offset(h, i)) matches Ok(Some(_)),
    ensures
        0 <= k < segments(image, h, n).len(),
        segment_at(image, header_offset(h, i)) == Ok::<Option<Segment>, LoadError>(Some(segments(image, h, n)[k])),
    decreases n,
{
    if i == n - 1 {
        segments(image, h, n - 1).len() as int
    } else {
        lemma_segment_listed(image, h, n - 1, i)
    }
}

/// A program that was loaded has no bad header.
proof fn lemma_no_bad_header(image: Seq<u8>, h: Header, j: int, leaves: Seq<Mark>, free: int, brk: int, i: int)
    requires
        load_from(image, h, j, leaves, free, brk) is Ok,
        0 <= j <= i < h.phnum,
    ensures
        segment_at(image, header_offset(h, i)) is Ok,
    decreases h.phnum - j,
{
    match segment_at(image, header_offset(h, j)) {
        Ok(Some(g)) => {
            if j < i {
                let plan = space::install(leaves, Backing::Framed, g.first(), g.last(), free);
                let end = addr::page_ceil(g.end as int);
                let next = if end > brk {
                    end
                } else {
                    brk
                };
                lemma_no_bad_header(image, h, j + 1, plan.leaves, plan.free, next, i);
            }
        },
        _ => {
            if j < i {
                lemma_no_bad_header(image, h, j + 1, leaves, free, brk, i);
            }
        },
    }
}

/// A program is loaded as its file says. Where program header `i` is of type 1, every
/// address `x` from its address on, for its memory size, is user memory that may be
/// executed, written and read exactly as bits 0, 1 and 2 of the header's flags say, and
/// holds the byte of the file that belongs there, or zero where the file has none. The
/// program starts at the entry point of the file, and its heap above all of it.
pub proof fn law_program_is_loaded_as_its_file_says(
    l: LoadedImage,
    mem: Memory,
    image: Seq<u8>,
    free: int,
    i: int,
    x: int,
)
    requires
        mem.wf(),
        load_result(image, free) is Ok,
        l.space.wf(mem),
        l.space.is_user(),
        l.of(mem, image),
        0 <= i < image[56] + 256 * image[57],
        ({
            let ph = bits::le(image, 32, 8) + i * (image[54] + 256 * image[55]);
            let vaddr = bits::le(image, ph + 16, 8);
            &&& image[ph] == 1 && image[ph + 1] == 0 && image[ph + 2] == 0 && image[ph + 3] == 0
            &&& vaddr <= x < vaddr + bits::le(image, ph + 40, 8)
        }),
    ensures
        ({
            let ph = bits::le(image, 32, 8) + i * (image[54] + 256 * image[55]);
            let flags = image[ph + 4];
            let offset = bits::le(image, ph + 8, 8);
            let vaddr = bits::le(image, ph + 16, 8);
            let filesz = bits::le(image, ph + 32, 8);
            &&& l.space.access(mem, x, 0)
            &&& l.space.access(mem, x, 8) == (flags % 2 == 1)
            &&& l.space.access(mem, x, 4) == ((flags / 2) % 2 == 1)
            &&& l.space.access(mem, x, 2) == ((flags / 4) % 2 == 1)
            &&& l.space.ubyte(mem, x) == (if x < vaddr + filesz {
                image[offset + x - vaddr]
            } else {
                0
            })
            &&& load_result(image, free)->Ok_0.entry == bits::le(image, 24, 8)
            &&& x < load_result(image, free)->Ok_0.brk
            &&& load_result(image, free)->Ok_0.brk % 4096 == 0
        }),
{
    let h = header_of(image)->Ok_0;
    law_header_fields(image);
    let ph = header_offset(h, i);
    assert(ph == bits::le(image, 32, 8) + i * (image[54] + 256 * image[55]));
    assert(0 <= i * h.phentsize) by (nonlinear_arith)
        requires
            0 <= i,
            0 <= h.phentsize,
    ;
    lemma_no_bad_header(image, h, 0, Seq::empty(), free - 1, 0, i);
    law_segments_are_checked(image, ph);
    lemma_first_byte(image, ph);
    lemma_first_byte(image, ph + 4);
    let k = lemma_segment_listed(image, h, h.phnum as int, i);
    let g = segments(image, h, h.phnum as int)[k];
    let perm = segment_perm(bits::le(image, ph + 4, 4));
    assert(g.perm == perm);
    law_loaded_bytes(l, mem, image, k, x);
    law_brk_is_above_segments(image, free, k);
    lemma_entry(image, h, 0, Seq::empty(), free - 1, 0);
}

/// A program starts at the address that its file gives at offset 24.
pub proof fn law_program_starts_at_its_entry(image: Seq<u8>, free: int)
    requires
        load_result(image, free) is Ok,
    ensures
        load_result(image, free)->Ok_0.entry == bits::le(image, 24, 8),
{
    law_header_fields(image);
    lemma_entry(image, header_of(image)->Ok_0, 0, Seq::empty(), free - 1, 0);
}

proof fn lemma_entry(image: Seq<u8>, h: Header, j: int, leaves: Seq<Mark>, free: int, brk: int)
    requires
        load_from(image, h, j, leaves, free, brk) is Ok,
    ensures
        load_from(image, h, j, leaves, free, brk)->Ok_0.entry == h.entry,
    decreases h.phnum - j,
{
    if j < h.phnum {
        match segment_at(image, header_offset(h, j)) {
            Ok(Some(g)) => {
                let plan = space::install(leaves, Backing::Framed, g.first(), g.last(), free);
                let end = addr::page_ceil(g.end as int);
                lemma_entry(
                    image,
                    h,
                    j + 1,
                    plan.leaves,
                    plan.free,
                    if end > brk {
                        end
                    } else {
                        brk
                    },
                );
            },
            _ => {
                lemma_entry(image, h, j + 1, leaves, free, brk);
            },
        }
    }
}

/// The pages of the segments that program headers from `i` on ask for.
pub open spec fn pages_from(image: Seq<u8>, h: Header, i: int) -> int
    decreases h.phnum - i,
{
    if i >= h.phnum {
        0
    } else {
        pages_from(image, h, i + 1) + (match segment_at(image, header_offset(h, i)) {
            Ok(Some(g)) => g.last() - g.first(),
            _ => 0,
        })
    }
}

/// Do the segments of program headers `i` and `j`, if they are any, have no page in common?
pub open spec fn apart(image: Seq<u8>, h: Header, i: int, j: int) -> bool {
    match (segment_at(image, header_offset(h, i)), segment_at(image, header_offset(h, j))) {
        (Ok(Some(a)), Ok(Some(b))) => a.last() <= b.first() || b.last() <= a.first(),
        _ => true,
    }
}

/// A program is loaded if its file is in order and there is memory for it: every program
/// header can be read and is skipped or a good segment, there is a segment, no two have a
/// page in common, and there are three frames for each page and one more.
pub proof fn law_good_programs_are_loaded(image: Seq<u8>, h: Header, free: int)
    requires
        header_of(image) == Ok::<Header, LoadError>(h),
        forall|i: int| 0 <= i < h.phnum ==> #[trigger] segment_at(image, header_offset(h, i)) is Ok,
        exists|i: int|
            0 <= i < h.phnum && (#[trigger] segment_at(image, header_offset(h, i)) matches Ok(g) && g is Some),
        forall|i: int, j: int| 0 <= i < j < h.phnum ==> #[trigger] apart(image, h, i, j),
        free > 3 * pages_from(image, h, 0),
    ensures
        load_result(image, free) is Ok,
{
    lemma_pages(image, h, 0);
    assert forall|j: int, w: int|
        #![trigger segment_at(image, header_offset(h, j)), page_table::occupies(Seq::<Mark>::empty(), w, 2)]
        0 <= j < h.phnum implies !page_table::occupies(Seq::<Mark>::empty(), w, 2) by {}
    lemma_loads(image, h, 0, Seq::empty(), free - 1, 0);
}

proof fn lemma_pages(image: Seq<u8>, h: Header, i: int)
    requires
        0 <= i,
    ensures
        0 <= pages_from(image, h, i),
    decreases h.phnum - i,
{
    if i < h.phnum {
        lemma_pages(image, h, i + 1);
        if let Ok(Some(g)) = segment_at(image, header_offset(h, i)) {
            lemma_span(image, header_offset(h, i));
        }
    }
}

proof fn lemma_span(image: Seq<u8>, ph: int)
    requires
        segment_at(image, ph) matches Ok(g) && g is Some,
    ensures
        segment_at(image, ph) matches Ok(Some(g)) && 0 < g.first() <= g.last() <= 0x400_0000 && 0 < addr::page_ceil(
            g.end as int,
        ),
{
    bits::lemma_le_bound(image, ph + 16, 8);
    bits::lemma_le_bound(image, ph + 32, 8);
    bits::lemma_le_bound(image, ph + 40, 8);
    bits::lemma_pow256(8);
}

proof fn lemma_loads(image: Seq<u8>, h: Header, i: int, leaves: Seq<Mark>, free: int, brk: int)
    requires
        0 <= i <= h.phnum,
        forall|j: int| i <= j < h.phnum ==> #[trigger] segment_at(image, header_offset(h, j)) is Ok,
        brk > 0 || exists|j: int|
            i <= j < h.phnum && (#[trigger] segment_at(image, header_offset(h, j)) matches Ok(g) && g is Some),
        0 <= brk,
        forall|a: int, b: int| i <= a < b < h.phnum ==> #[trigger] apart(image, h, a, b),
        forall|j: int, w: int|
            #![trigger segment_at(image, header_offset(h, j)), page_table::occupies(leaves, w, 2)]
            i <= j < h.phnum && (segment_at(image, header_offset(h, j)) matches Ok(Some(g)) && g.first() <= w
                < g.last()) ==> !page_table::occupies(leaves, w, 2),
        free >= 3 * pages_from(image, h, i),
    ensures
        load_from(image, h, i, leaves, free, brk) is Ok,
    decreases h.phnum - i,
{
    if i < h.phnum {
        lemma_pages(image, h, i + 1);
        assert(segment_at(image, header_offset(h, i)) is Ok);
        match segment_at(image, header_offset(h, i)) {
            Ok(Some(g)) => {
                lemma_span(image, header_offset(h, i));
                space::law_enough_memory_maps(leaves, g.first(), g.last(), free);
                let plan = space::install(leaves, Backing::Framed, g.first(), g.last(), free);
                let end = addr::page_ceil(g.end as int);
                let top = if end > brk {
                    end
                } else {
                    brk
                };
                assert forall|j: int, w: int|
                    #![trigger segment_at(image, header_offset(h, j)), page_table::occupies(plan.leaves, w, 2)]
                    i + 1 <= j < h.phnum && (segment_at(image, header_offset(h, j)) matches Ok(Some(b)) && b.first() <= w
                        < b.last()) implies !page_table::occupies(plan.leaves, w, 2) by {
                    assert(apart(image, h, i, j));
                    lemma_span(image, header_offset(h, j));
                    if page_table::occupies(plan.leaves, w, 2) {
                        space::lemma_run_occupies(leaves, g.first(), g.last(), free, w);
                        assert(!page_table::occupies(leaves, w, 2));
                    }
                }
                lemma_loads(image, h, i + 1, plan.leaves, plan.free, top);
            },
            Ok(None) => {
                lemma_loads(image, h, i + 1, leaves, free, brk);
            },
            Err(_) => {},
        }
    }
}

/// A program that is loaded takes the pages of its segments and no others.
pub proof fn law_program_takes_its_own_pages(image: Seq<u8>, free: int, w: int)
    requires
        load_result(image, free) is Ok,
        0 <= w < 0x800_0000,
        page_table::occupies(load_result(image, free)->Ok_0.leaves, w, 2),
    ensures
        exists|i: int|
            {
                &&& 0 <= i < header_of(image)->Ok_0.phnum
                &&& #[trigger] segment_at(image, header_offset(header_of(image)->Ok_0, i)) matches Ok(Some(g)) && g.first()
                    <= w < g.last()
            },
{
    let h = header_of(image)->Ok_0;
    lemma_taken_pages(image, h, 0, Seq::empty(), free - 1, 0, w);
}

proof fn lemma_taken_pages(image: Seq<u8>, h: Header, i: int, leaves: Seq<Mark>, free: int, brk: int, w: int)
    requires
        0 <= i,
        load_from(image, h, i, leaves, free, brk) is Ok,
        0 <= w < 0x800_0000,
        page_table::occupies(load_from(image, h, i, leaves, free, brk)->Ok_0.leaves, w, 2),
    ensures
        page_table::occupies(leaves, w, 2) || exists|j: int|
            {
                &&& i <= j < h.phnum
                &&& #[trigger] segment_at(image, header_offset(h, j)) matches Ok(Some(g)) && g.first() <= w < g.last()
            },
    decreases h.phnum - i,
{
    if i < h.phnum {
        match segment_at(image, header_offset(h, i)) {
            Ok(Some(g)) => {
                lemma_span(image, header_offset(h, i));
                let plan = space::install(leaves, Backing::Framed, g.first(), g.last(), free);
                let end = addr::page_ceil(g.end as int);
                lemma_taken_pages(
                    image,
                    h,
                    i + 1,
                    plan.leaves,
                    plan.free,
                    if end > brk {
                        end
                    } else {
                        brk
                    },
                    w,
                );
                if page_table::occupies(plan.leaves, w, 2) {
                    space::lemma_run_occupies(leaves, g.first(), g.last(), free, w);
                }
            },
            Ok(None) => {
                lemma_taken_pages(image, h, i + 1, leaves, free, brk, w);
            },
            Err(_) => {},
        }
    }
}

/// A program with a header that is not in order is refused, wherever it stands among the
/// others, and so is one that has nothing to load. If nothing is to be loaded before it,
/// what is wrong with the header is what is wrong with the program.
pub proof fn law_bad_programs_are_refused(image: Seq<u8>, h: Header, free: int, i: int)
    requires
        header_of(image) == Ok::<Header, LoadError>(h),
        0 <= i,
    ensures
        i < h.phnum && segment_at(image, header_offset(h, i)) is Err ==> load_result(image, free) is Err,
        free > 0 && (forall|j: int|
            0 <= j < h.phnum ==> #[trigger] segment_at(image, header_offset(h, j)) == Ok::<Option<Segment>, LoadError>(
                None,
            )) ==> load_result(image, free) == Err::<Outcome, LoadError>(LoadError::BadSegment),
        free > 0 && i < h.phnum && segment_at(image, header_offset(h, i)) is Err && (forall|j: int|
            0 <= j < i ==> #[trigger] segment_at(image, header_offset(h, j)) == Ok::<Option<Segment>, LoadError>(None))
            ==> load_result(image, free) == Err::<Outcome, LoadError>(
            segment_at(image, header_offset(h, i))->Err_0,
        ),
        free <= 0 ==> load_result(image, free) == Err::<Outcome, LoadError>(LoadError::OutOfMemory),
{
    if free > 0 {
        if i < h.phnum && load_result(image, free) is Ok {
            lemma_no_bad_header(image, h, 0, Seq::empty(), free - 1, 0, i);
        }
        let n = if i < h.phnum {
            i
        } else {
            h.phnum as int
        };
        if forall|j: int|
            0 <= j < h.phnum ==> #[trigger] segment_at(image, header_offset(h, j)) == Ok::<Option<Segment>, LoadError>(
                None,
            ) {
            lemma_skipped(image, h, 0, h.phnum as int, free - 1);
        }
        if forall|j: int|
            0 <= j < i ==> #[trigger] segment_at(image, header_offset(h, j)) == Ok::<Option<Segment>, LoadError>(None) {
            lemma_skipped(image, h, 0, n, free - 1);
        }
    }
}

proof fn lemma_skipped(image: Seq<u8>, h: Header, i: int, n: int, free: int)
    requires
        0 <= i <= n <= h.phnum,
        forall|j: int|
            i <= j < n ==> #[trigger] segment_at(image, header_offset(h, j)) == Ok::<Option<Segment>, LoadError>(None),
    ensures
        load_from(image, h, i, Seq::empty(), free, 0) == load_from(image, h, n, Seq::empty(), free, 0),
    decreases n - i,
{
    if i < n {
        assert(segment_at(image, header_offset(h, i)) == Ok::<Option<Segment>, LoadError>(None));
        lemma_skipped(image, h, i + 1, n, free);
    }
}

} // verus!
