//! Recognising a kernel: the ELF headers, the Multiboot header, and where
//! each loadable segment goes.
//!
//! The caller reads the kernel file, asks [`parse_kernel`] what it is, and
//! then allocates and copies each segment the answer lists.

use vstd::prelude::*;
use crate::le::{le16, le32, le64};
use crate::linux::{u16_at, u32_at, u64_at};

verus! {

pub const EI_NIDENT: usize = 16;
pub const ET_EXEC: u16 = 2;
pub const EM_386: u16 = 3;
pub const EM_X86_64: u16 = 62;
pub const PT_LOAD: u32 = 1;
pub const ELFCLASS32: u8 = 1;
pub const ELFCLASS64: u8 = 2;

pub const MB1_HEADER_MAGIC: u32 = 0x1BAD_B002;
pub const MB2_HEADER_MAGIC: u32 = 0xE852_50D6;

/// How far into the file a Multiboot2 header may start (it must end within).
pub const MB2_SEARCH: usize = 32768;
/// How far into the file a Multiboot1 header may start (it must end within).
pub const MB1_SEARCH: usize = 8192;

/// Sizes of the ELF headers Bang reads.
pub const ELF32_EHDR_SIZE: usize = 52;
pub const ELF32_PHDR_SIZE: usize = 32;
pub const ELF64_EHDR_SIZE: usize = 64;
pub const ELF64_PHDR_SIZE: usize = 56;

/// Boot mode determined by ELF class and multiboot headers.
#[derive(Debug, Clone, Copy, PartialEq, Eq, Structural)]
pub enum BootMode {
    /// Multiboot1 or Multiboot2 kernel — use 32-bit trampoline.
    Protected32,
    /// ELF64 kernel without multiboot — use 64-bit direct handoff.
    Long64,
}

/// Result of loading a kernel.
pub struct KernelInfo {
    pub entry_point: u64,
    pub mb_version: u32,
    pub boot_mode: BootMode,
}

// ---------------------------------------------------------------------------
// Multiboot headers.
// ---------------------------------------------------------------------------

/// A Multiboot2 header at `off`: the magic, then architecture, header length
/// and checksum, the four summing to zero modulo 2^32.
#[verifier::opaque]
pub open spec fn mb2_header_at(b: Seq<u8>, off: int) -> bool {
    &&& le32(b, off) == MB2_HEADER_MAGIC
    &&& (le32(b, off) + le32(b, off + 4) + le32(b, off + 8) + le32(b, off + 12)) % 0x1_0000_0000
        == 0
}

/// A Multiboot1 header at `off`: the magic, then flags and checksum, the three
/// summing to zero modulo 2^32.
#[verifier::opaque]
pub open spec fn mb1_header_at(b: Seq<u8>, off: int) -> bool {
    &&& le32(b, off) == MB1_HEADER_MAGIC
    &&& (le32(b, off) + le32(b, off + 4) + le32(b, off + 8)) % 0x1_0000_0000 == 0
}

pub open spec fn min(a: int, b: int) -> int {
    if a <= b { a } else { b }
}

/// A Multiboot2 header, 8-byte aligned, lying wholly within the first
/// 32768 bytes.
pub open spec fn has_mb2_header(b: Seq<u8>) -> bool {
    exists|off: int|
        0 <= off && off % 8 == 0 && off + 16 <= min(b.len() as int, MB2_SEARCH as int)
            && #[trigger] mb2_header_at(b, off)
}

/// A Multiboot1 header, 4-byte aligned, lying wholly within the first
/// 8192 bytes.
pub open spec fn has_mb1_header(b: Seq<u8>) -> bool {
    exists|off: int|
        0 <= off && off % 4 == 0 && off + 12 <= min(b.len() as int, MB1_SEARCH as int)
            && #[trigger] mb1_header_at(b, off)
}

/// 2 for a Multiboot2 kernel, else 1 for a Multiboot1 kernel, else 0.
pub open spec fn multiboot_version(b: Seq<u8>) -> u32 {
    if has_mb2_header(b) {
        2
    } else if has_mb1_header(b) {
        1
    } else {
        0
    }
}

/// Whether there is a Multiboot2 header at `off`.
fn mb2_at(b: &[u8], off: usize) -> (r: bool)
    requires
        off + 16 <= b@.len(),
    ensures
        r == mb2_header_at(b@, off as int),
{
    reveal(mb2_header_at);
    let _len = b.len();
    let magic = u32_at(b, off);
    if magic != MB2_HEADER_MAGIC {
        return false;
    }
    let arch = u32_at(b, off + 4);
    let hlen = u32_at(b, off + 8);
    let chksum = u32_at(b, off + 12);
    let sum = magic as u64 + arch as u64 + hlen as u64 + chksum as u64;
    sum % 0x1_0000_0000 == 0
}

/// Whether there is a Multiboot1 header at `off`.
fn mb1_at(b: &[u8], off: usize) -> (r: bool)
    requires
        off + 12 <= b@.len(),
    ensures
        r == mb1_header_at(b@, off as int),
{
    reveal(mb1_header_at);
    let _len = b.len();
    let magic = u32_at(b, off);
    if magic != MB1_HEADER_MAGIC {
        return false;
    }
    let flags = u32_at(b, off + 4);
    let chksum = u32_at(b, off + 8);
    let sum = magic as u64 + flags as u64 + chksum as u64;
    sum % 0x1_0000_0000 == 0
}

proof fn lemma_next_aligned(o: int, off: int, k: int)
    requires
        k > 0,
        o % k == 0,
        off % k == 0,
        off <= o < off + k,
    ensures
        o == off,
{
    assert(o == off) by (nonlinear_arith)
        requires k > 0, o % k == 0, off % k == 0, off <= o, o < off + k;
}

/// Scan a raw ELF file for a Multiboot header.
/// Returns 2 (Multiboot2), 1 (Multiboot1), or 0 (none).
pub fn detect_multiboot_version(file_buf: &[u8]) -> (r: u32)
    ensures
        r == multiboot_version(file_buf@),
{
    let len = file_buf.len();
    let mb2_limit = if len < MB2_SEARCH { len } else { MB2_SEARCH };
    let mut off: usize = 0;
    while off + 16 <= mb2_limit
        invariant
            len == file_buf@.len(),
            mb2_limit == min(len as int, MB2_SEARCH as int),
            off % 8 == 0,
            off <= mb2_limit + 8,
            forall|o: int|
                0 <= o < off && o % 8 == 0 && o + 16 <= mb2_limit ==> !#[trigger] mb2_header_at(
                    file_buf@,
                    o,
                ),
        decreases mb2_limit + 8 - off,
    {
        if mb2_at(file_buf, off) {
            return 2;
        }
        assert forall|o: int|
            0 <= o < off + 8 && o % 8 == 0 && o + 16 <= mb2_limit implies !#[trigger] mb2_header_at(
            file_buf@,
            o,
        ) by {
            if o >= off {
                lemma_next_aligned(o, off as int, 8);
            }
        }
        off = off + 8;
    }
    assert(!has_mb2_header(file_buf@));

    let mb1_limit = if len < MB1_SEARCH { len } else { MB1_SEARCH };
    off = 0;
    while off + 12 <= mb1_limit
        invariant
            len == file_buf@.len(),
            !has_mb2_header(file_buf@),
            mb1_limit == min(len as int, MB1_SEARCH as int),
            off % 4 == 0,
            off <= mb1_limit + 4,
            forall|o: int|
                0 <= o < off && o % 4 == 0 && o + 12 <= mb1_limit ==> !#[trigger] mb1_header_at(
                    file_buf@,
                    o,
                ),
        decreases mb1_limit + 4 - off,
    {
        if mb1_at(file_buf, off) {
            return 1;
        }
        assert forall|o: int|
            0 <= o < off + 4 && o % 4 == 0 && o + 12 <= mb1_limit implies !#[trigger] mb1_header_at(
            file_buf@,
            o,
        ) by {
            if o >= off {
                lemma_next_aligned(o, off as int, 4);
            }
        }
        off = off + 4;
    }
    0
}

// ---------------------------------------------------------------------------
// The ELF headers.
// ---------------------------------------------------------------------------

/// Why a file cannot be booted as a kernel.
#[derive(Debug, Clone, Copy, PartialEq, Eq, Structural)]
pub enum ElfError {
    /// Shorter than an ELF identification, or without the `\x7fELF` magic.
    NotElf,
    /// An ELF32 file too short for its file header.
    Elf32HeaderTruncated,
    /// An ELF32 file that is not an i386 executable.
    NotI386Executable,
    /// An ELF64 file too short for its file header.
    Elf64HeaderTruncated,
    /// An ELF64 file that is not an x86_64 executable.
    NotX86_64Executable,
    /// Neither ELF32 nor ELF64; the class byte.
    UnsupportedClass(u8),
    /// A program header lies (partly) past the end of the file.
    ProgramHeaderOutsideFile,
    /// A loadable segment's file contents lie (partly) past the end of the file.
    SegmentOutsideFile,
    /// A loadable segment whose page count does not fit in 64 bits.
    SegmentTooLarge,
}

/// A loadable segment, and the pages it occupies.
#[derive(Clone, Copy, PartialEq, Eq, Structural)]
pub struct Segment {
    /// Physical address the segment is loaded at.
    pub paddr: u64,
    /// Bytes it occupies in memory; past `filesz` they are zero.
    pub memsz: u64,
    /// Where its contents start in the file.
    pub offset: u64,
    /// How many bytes of it the file holds.
    pub filesz: u64,
    /// The page `paddr` lies in.
    pub page_base: u64,
    /// Pages from `page_base` that hold the whole of it.
    pub pages: u64,
}

/// A kernel recognised, and what must be loaded for it.
pub struct KernelImage {
    pub info: KernelInfo,
    pub segments: Vec<Segment>,
}

pub open spec fn is_elf(b: Seq<u8>) -> bool {
    &&& b.len() >= EI_NIDENT
    &&& b[0] == 0x7F
    &&& b[1] == 0x45
    &&& b[2] == 0x4C
    &&& b[3] == 0x46
}

/// The pages a segment at `paddr` of `memsz` bytes occupies, if its contents
/// lie within a file of `len` bytes.
pub open spec fn segment_plan(paddr: int, memsz: int, offset: int, filesz: int, len: int) -> Result<
    Segment,
    ElfError,
> {
    if offset + filesz > len {
        Err(ElfError::SegmentOutsideFile)
    } else if paddr % 4096 + memsz + 4095 > u64::MAX {
        Err(ElfError::SegmentTooLarge)
    } else {
        Ok(
            Segment {
                paddr: paddr as u64,
                memsz: memsz as u64,
                offset: offset as u64,
                filesz: filesz as u64,
                page_base: (paddr - paddr % 4096) as u64,
                pages: ((paddr % 4096 + memsz + 4095) / 4096) as u64,
            },
        )
    }
}

/// What a segment plan says, stated by what it is for: a segment is refused
/// as outside the file exactly when the bytes the file gives it
/// (`offset .. offset + filesz`) run past the file's end, however much more
/// memory it takes; it is refused as too large exactly when its pages would
/// run past the end of the address space; otherwise it keeps its addresses
/// and sizes and is given the fewest whole pages, from the page `paddr` lies
/// in, that hold all `memsz` bytes of it.
pub proof fn lemma_segment_plan(paddr: u64, memsz: u64, offset: u64, filesz: u64, len: usize)
    ensures
        ({
            let r = segment_plan(paddr as int, memsz as int, offset as int, filesz as int, len as int);
            &&& (r == Err::<Segment, ElfError>(ElfError::SegmentOutsideFile) <==> offset + filesz > len)
            &&& (r == Err::<Segment, ElfError>(ElfError::SegmentTooLarge) <==> offset + filesz <= len
                && paddr % 4096 + memsz + 4095 > u64::MAX)
            &&& (r is Ok <==> offset + filesz <= len && paddr % 4096 + memsz + 4095 <= u64::MAX)
            &&& r matches Ok(seg) ==> {
                &&& seg.paddr == paddr
                &&& seg.memsz == memsz
                &&& seg.offset == offset
                &&& seg.filesz == filesz
                &&& seg.page_base % 4096 == 0
                &&& seg.page_base <= paddr < seg.page_base + 4096
                &&& paddr + memsz <= seg.page_base + seg.pages * 4096 < paddr + memsz + 4096
            }
        }),
{
    let r = segment_plan(paddr as int, memsz as int, offset as int, filesz as int, len as int);
    if offset + filesz <= len && paddr % 4096 + memsz + 4095 <= u64::MAX {
        let po = paddr % 4096;
        let pages = (po + memsz + 4095) / 4096;
        assert(pages * 4096 <= po + memsz + 4095 < pages * 4096 + 4096) by (nonlinear_arith)
            requires pages == (po + memsz + 4095) / 4096, po + memsz + 4095 >= 0;
        assert(po + memsz <= pages * 4096 < po + memsz + 4096) by (nonlinear_arith)
            requires pages * 4096 <= po + memsz + 4095 < pages * 4096 + 4096;
        assert((paddr - po) % 4096 == 0) by (nonlinear_arith)
            requires po == paddr % 4096, paddr >= 0;
    }
}

/// The program header at `off`: a segment if it is `PT_LOAD`, nothing if it
/// is anything else.
pub open spec fn program_header(b: Seq<u8>, class64: bool, off: int) -> Result<
    Option<Segment>,
    ElfError,
> {
    let size = if class64 { ELF64_PHDR_SIZE } else { ELF32_PHDR_SIZE };
    if off + size > b.len() {
        Err(ElfError::ProgramHeaderOutsideFile)
    } else if le32(b, off) != PT_LOAD {
        Ok(None)
    } else {
        let plan = if class64 {
            segment_plan(le64(b, off + 24), le64(b, off + 40), le64(b, off + 8), le64(b, off + 32), b.len() as int)
        } else {
            segment_plan(le32(b, off + 12), le32(b, off + 20), le32(b, off + 4), le32(b, off + 16), b.len() as int)
        };
        match plan {
            Ok(s) => Ok(Some(s)),
            Err(e) => Err(e),
        }
    }
}

/// The loadable segments among the first `n` program headers, which start at
/// `phoff`, in order; or the first thing wrong with them.
pub open spec fn load_segments(b: Seq<u8>, class64: bool, phoff: int, n: int) -> Result<
    Seq<Segment>,
    ElfError,
>
    decreases n,
{
    if n <= 0 {
        Ok(seq![])
    } else {
        let size = if class64 { ELF64_PHDR_SIZE } else { ELF32_PHDR_SIZE };
        match load_segments(b, class64, phoff, n - 1) {
            Err(e) => Err(e),
            Ok(segs) => match program_header(b, class64, phoff + (n - 1) * size) {
                Err(e) => Err(e),
                Ok(None) => Ok(segs),
                Ok(Some(s)) => Ok(segs.push(s)),
            },
        }
    }
}

/// What a recognised kernel is, as values.
pub struct KernelView {
    pub entry_point: u64,
    pub mb_version: u32,
    pub boot_mode: BootMode,
    pub segments: Seq<Segment>,
}

pub open spec fn kernel_view(k: KernelImage) -> KernelView {
    KernelView {
        entry_point: k.info.entry_point,
        mb_version: k.info.mb_version,
        boot_mode: k.info.boot_mode,
        segments: k.segments@,
    }
}

/// How a kernel is entered: through the 32-bit trampoline when it has a
/// Multiboot header, or when it is ELF32; directly in long mode otherwise.
pub open spec fn boot_mode_for(mb_version: u32, class: u8) -> BootMode {
    if mb_version > 0 {
        BootMode::Protected32
    } else if class == ELFCLASS64 {
        BootMode::Long64
    } else {
        BootMode::Protected32
    }
}

/// What the kernel file `b` is, or why it cannot be booted.
pub open spec fn spec_parse_kernel(b: Seq<u8>) -> Result<KernelView, ElfError> {
    if !is_elf(b) {
        Err(ElfError::NotElf)
    } else {
        let mb = multiboot_version(b);
        let class = b[4];
        if class == ELFCLASS32 {
            if b.len() < ELF32_EHDR_SIZE {
                Err(ElfError::Elf32HeaderTruncated)
            } else if le16(b, 16) != ET_EXEC || le16(b, 18) != EM_386 {
                Err(ElfError::NotI386Executable)
            } else {
                match load_segments(b, false, le32(b, 28), le16(b, 44)) {
                    Err(e) => Err(e),
                    Ok(segs) => Ok(
                        KernelView {
                            entry_point: le32(b, 24) as u64,
                            mb_version: mb,
                            boot_mode: boot_mode_for(mb, class),
                            segments: segs,
                        },
                    ),
                }
            }
        } else if class == ELFCLASS64 {
            if b.len() < ELF64_EHDR_SIZE {
                Err(ElfError::Elf64HeaderTruncated)
            } else if le16(b, 16) != ET_EXEC || le16(b, 18) != EM_X86_64 {
                Err(ElfError::NotX86_64Executable)
            } else {
                match load_segments(b, true, le64(b, 32), le16(b, 56)) {
                    Err(e) => Err(e),
                    Ok(segs) => Ok(
                        KernelView {
                            entry_point: le64(b, 24) as u64,
                            mb_version: mb,
                            boot_mode: boot_mode_for(mb, class),
                            segments: segs,
                        },
                    ),
                }
            }
        } else {
            Err(ElfError::UnsupportedClass(class))
        }
    }
}

/// The plan for one segment.
fn plan_segment(paddr: u64, memsz: u64, offset: u64, filesz: u64, len: usize) -> (r: Result<
    Segment,
    ElfError,
>)
    ensures
        r == segment_plan(paddr as int, memsz as int, offset as int, filesz as int, len as int),
{
    if offset as u128 + filesz as u128 > len as u128 {
        return Err(ElfError::SegmentOutsideFile);
    }
    let page_offset = paddr % 4096;
    if page_offset as u128 + memsz as u128 + 4095 > u64::MAX as u128 {
        return Err(ElfError::SegmentTooLarge);
    }
    Ok(
        Segment {
            paddr,
            memsz,
            offset,
            filesz,
            page_base: paddr - page_offset,
            pages: (page_offset + memsz + 4095) / 4096,
        },
    )
}

/// The program header at `off`.
fn read_program_header(b: &[u8], class64: bool, off: u64) -> (r: Result<Option<Segment>, ElfError>)
    ensures
        r == program_header(b@, class64, off as int),
{
    let size: u64 = if class64 { ELF64_PHDR_SIZE as u64 } else { ELF32_PHDR_SIZE as u64 };
    let len = b.len();
    if off as u128 + size as u128 > len as u128 {
        return Err(ElfError::ProgramHeaderOutsideFile);
    }
    let o = off as usize;
    if u32_at(b, o) != PT_LOAD {
        return Ok(None);
    }
    let plan = if class64 {
        plan_segment(u64_at(b, o + 24), u64_at(b, o + 40), u64_at(b, o + 8), u64_at(b, o + 32), len)
    } else {
        plan_segment(
            u32_at(b, o + 12) as u64,
            u32_at(b, o + 20) as u64,
            u32_at(b, o + 4) as u64,
            u32_at(b, o + 16) as u64,
            len,
        )
    };
    match plan {
        Ok(s) => Ok(Some(s)),
        Err(e) => Err(e),
    }
}

/// The loadable segments of the `phnum` program headers at `phoff`.
fn read_segments(b: &[u8], class64: bool, phoff: u64, phnum: u16) -> (r: Result<Vec<Segment>, ElfError>)
    ensures
        match r {
            Ok(v) => load_segments(b@, class64, phoff as int, phnum as int) == Ok::<Seq<Segment>, ElfError>(v@),
            Err(e) => load_segments(b@, class64, phoff as int, phnum as int) == Err::<Seq<Segment>, ElfError>(e),
        },
{
    let size: u64 = if class64 { ELF64_PHDR_SIZE as u64 } else { ELF32_PHDR_SIZE as u64 };
    let mut segs: Vec<Segment> = Vec::new();
    let mut i: u16 = 0;
    while i < phnum
        invariant
            i <= phnum,
            size == (if class64 { ELF64_PHDR_SIZE } else { ELF32_PHDR_SIZE }),
            load_segments(b@, class64, phoff as int, i as int) == Ok::<Seq<Segment>, ElfError>(segs@),
        decreases phnum - i,
    {
        let off128 = phoff as u128 + i as u128 * size as u128;
        let len = b.len();
        if off128 + size as u128 > len as u128 {
            assert(program_header(b@, class64, phoff + i * size) == Err::<Option<Segment>, ElfError>(ElfError::ProgramHeaderOutsideFile));
            proof { lemma_segments_stop(b@, class64, phoff as int, i as int + 1, phnum as int); }
            return Err(ElfError::ProgramHeaderOutsideFile);
        }
        let off = off128 as u64;
        match read_program_header(b, class64, off) {
            Err(e) => {
                proof { lemma_segments_stop(b@, class64, phoff as int, i as int + 1, phnum as int); }
                return Err(e);
            },
            Ok(None) => {},
            Ok(Some(s)) => {
                segs.push(s);
            },
        }
        i = i + 1;
    }
    Ok(segs)
}

/// Once the headers up to `k` are in error, so are all the headers up to `n`.
proof fn lemma_segments_stop(b: Seq<u8>, class64: bool, phoff: int, k: int, n: int)
    requires
        1 <= k <= n,
        load_segments(b, class64, phoff, k) is Err,
    ensures
        load_segments(b, class64, phoff, n) == load_segments(b, class64, phoff, k),
    decreases n - k,
{
    if k < n {
        lemma_segments_stop(b, class64, phoff, k, n - 1);
    }
}

/// Recognise the kernel in `file`: its entry point, its Multiboot version and
/// how it is to be entered, and the segments to load.
pub fn parse_kernel(file: &[u8]) -> (r: Result<KernelImage, ElfError>)
    ensures
        match r {
            Ok(k) => spec_parse_kernel(file@) == Ok::<KernelView, ElfError>(kernel_view(k)),
            Err(e) => spec_parse_kernel(file@) == Err::<KernelView, ElfError>(e),
        },
{
    if !(file.len() >= EI_NIDENT && file[0] == 0x7F && file[1] == 0x45 && file[2] == 0x4C
        && file[3] == 0x46) {
        return Err(ElfError::NotElf);
    }
    let mb_version = detect_multiboot_version(file);
    let class = file[4];
    let boot_mode = if mb_version > 0 {
        BootMode::Protected32
    } else if class == ELFCLASS64 {
        BootMode::Long64
    } else {
        BootMode::Protected32
    };
    if class == ELFCLASS32 {
        if file.len() < ELF32_EHDR_SIZE {
            return Err(ElfError::Elf32HeaderTruncated);
        }
        if u16_at(file, 16) != ET_EXEC || u16_at(file, 18) != EM_386 {
            return Err(ElfError::NotI386Executable);
        }
        let phoff = u32_at(file, 28) as u64;
        let phnum = u16_at(file, 44);
        let segments = match read_segments(file, false, phoff, phnum) {
            Ok(v) => v,
            Err(e) => return Err(e),
        };
        let entry_point = u32_at(file, 24) as u64;
        Ok(KernelImage { info: KernelInfo { entry_point, mb_version, boot_mode }, segments })
    } else if class == ELFCLASS64 {
        if file.len() < ELF64_EHDR_SIZE {
            return Err(ElfError::Elf64HeaderTruncated);
        }
        if u16_at(file, 16) != ET_EXEC || u16_at(file, 18) != EM_X86_64 {
            return Err(ElfError::NotX86_64Executable);
        }
        let phoff = u64_at(file, 32);
        let phnum = u16_at(file, 56);
        let segments = match read_segments(file, true, phoff, phnum) {
            Ok(v) => v,
            Err(e) => return Err(e),
        };
        let entry_point = u64_at(file, 24);
        Ok(KernelImage { info: KernelInfo { entry_point, mb_version, boot_mode }, segments })
    } else {
        Err(ElfError::UnsupportedClass(class))
    }
}

// ---------------------------------------------------------------------------
// Pages already allocated for earlier segments.
// ---------------------------------------------------------------------------

/// How many allocations are remembered; later ones are made but forgotten.
pub const MAX_TRACKED: usize = 32;

/// Whether the allocation of `alloc_pages` pages at `alloc_base` covers the
/// `num_pages` pages at `base`.
pub open spec fn covers(alloc_base: u64, alloc_pages: u64, base: u64, num_pages: u64) -> bool {
    base >= alloc_base && base + num_pages * 4096 <= alloc_base + alloc_pages * 4096
}

/// The page ranges allocated for kernel segments so far, so that adjacent
/// segments sharing a page do not allocate it twice.
pub struct AllocTable {
    ranges: Vec<(u64, u64)>,
}

impl View for AllocTable {
    type V = Seq<(u64, u64)>;

    closed spec fn view(&self) -> Seq<(u64, u64)> {
        self.ranges@
    }
}

impl AllocTable {
    pub open spec fn wf(&self) -> bool {
        self@.len() <= MAX_TRACKED
    }

    /// Whether some remembered allocation covers these pages.
    pub open spec fn spec_covered(&self, base: u64, num_pages: u64) -> bool {
        exists|i: int| 0 <= i < self@.len() && covers(#[trigger] self@[i].0, self@[i].1, base, num_pages)
    }

    pub fn new() -> (t: Self)
        ensures
            t@ == Seq::<(u64, u64)>::empty(),
            t.wf(),
    {
        AllocTable { ranges: Vec::new() }
    }

    /// Whether the pages `[base_page .. base_page + num_pages)` are already
    /// allocated, wholly within one remembered allocation.
    pub fn pages_already_allocated(&self, base_page: u64, num_pages: u64) -> (r: bool)
        ensures
            r == self.spec_covered(base_page, num_pages),
    {
        let n = self.ranges.len();
        let mut i: usize = 0;
        while i < n
            invariant
                n == self@.len(),
                i <= n,
                forall|k: int| 0 <= k < i ==> !covers(#[trigger] self@[k].0, self@[k].1, base_page, num_pages),
            decreases n - i,
        {
            let (alloc_base, alloc_pages) = self.ranges[i];
            let alloc_end = alloc_base as u128 + alloc_pages as u128 * 4096;
            if base_page >= alloc_base && base_page as u128 + num_pages as u128 * 4096 <= alloc_end {
                assert(covers(self@[i as int].0, self@[i as int].1, base_page, num_pages));
                return true;
            }
            i = i + 1;
        }
        false
    }

    /// Remember that `num_pages` pages at `base` have been allocated, if
    /// there is room to.
    pub fn record_allocation(&mut self, base: u64, num_pages: u64)
        requires
            old(self).wf(),
        ensures
            final(self).wf(),
            old(self)@.len() < MAX_TRACKED ==> final(self)@ == old(self)@.push((base, num_pages)),
            old(self)@.len() >= MAX_TRACKED ==> final(self)@ == old(self)@,
    {
        if self.ranges.len() < MAX_TRACKED {
            self.ranges.push((base, num_pages));
        }
    }
}

/// Whether the page at `addr` lies within one of the allocations `t`
/// remembers.
pub open spec fn page_allocated(t: Seq<(u64, u64)>, addr: int) -> bool {
    exists|i: int| 0 <= i < t.len() && #[trigger] t[i].0 <= addr && addr + 4096 <= t[i].0 + t[i].1 * 4096
}

/// The pages among the first `n` from `base` that no remembered allocation
/// holds, in order.
pub open spec fn unallocated(t: Seq<(u64, u64)>, base: int, n: nat) -> Seq<u64>
    decreases n,
{
    if n == 0 {
        seq![]
    } else {
        let prev = unallocated(t, base, (n - 1) as nat);
        let a = base + (n - 1) * 4096;
        if page_allocated(t, a) {
            prev
        } else {
            prev.push(a as u64)
        }
    }
}

impl AllocTable {
    /// The pages of `[base_page .. base_page + num_pages)` that still have to
    /// be allocated: those no remembered allocation holds, lowest first.
    /// Segments that share pages with earlier ones, wholly or in part, get
    /// only the pages that are new.
    pub fn unallocated_pages(&self, base_page: u64, num_pages: u64) -> (r: Vec<u64>)
        requires
            base_page + num_pages * 4096 <= u64::MAX + 1,
        ensures
            r@ == unallocated(self@, base_page as int, num_pages as nat),
    {
        let mut out: Vec<u64> = Vec::new();
        let mut k: u64 = 0;
        while k < num_pages
            invariant
                k <= num_pages,
                base_page + num_pages * 4096 <= u64::MAX + 1,
                out@ == unallocated(self@, base_page as int, k as nat),
            decreases num_pages - k,
        {
            assert(base_page + k * 4096 + 4096 <= base_page + num_pages * 4096) by (nonlinear_arith)
                requires k < num_pages;
            let addr = base_page + k * 4096;
            let n = self.ranges.len();
            let mut i: usize = 0;
            let mut held = false;
            while i < n && !held
                invariant
                    n == self@.len(),
                    i <= n,
                    addr == base_page + k * 4096,
                    held ==> page_allocated(self@, addr as int),
                    !held ==> forall|j: int| 0 <= j < i ==> !(#[trigger] self@[j].0 <= addr && addr
                        + 4096 <= self@[j].0 + self@[j].1 * 4096),
                decreases n - i + (if held { 0int } else { 1int }),
            {
                let (b, c) = self.ranges[i];
                if b <= addr && addr as u128 + 4096 <= b as u128 + c as u128 * 4096 {
                    assert(self@[i as int].0 <= addr && addr + 4096 <= self@[i as int].0 + self@[i as int].1 * 4096);
                    held = true;
                } else {
                    i = i + 1;
                }
            }
            if !held {
                out.push(addr);
            }
            k = k + 1;
        }
        out
    }
}

/// The address of page `k` from `base`.
pub open spec fn page_at(base: int, k: int) -> int {
    base + k * 4096
}

/// Whether `a` is one of the `n` pages from `base`.
pub open spec fn is_page_of(base: int, n: nat, a: int) -> bool {
    exists|k: int| #![trigger page_at(base, k)] 0 <= k < n && a == page_at(base, k)
}

/// The pages listed as still to allocate are exactly the pages of the range
/// that no remembered allocation holds, each once, lowest first.
pub proof fn lemma_unallocated_exact(t: Seq<(u64, u64)>, base: int, n: nat)
    requires
        0 <= base,
        base + n * 4096 <= u64::MAX + 1,
    ensures
        forall|k: int|
            0 <= k < n ==> (unallocated(t, base, n).contains(#[trigger] page_at(base, k) as u64)
                <==> !page_allocated(t, page_at(base, k))),
        forall|i: int|
            0 <= i < unallocated(t, base, n).len() ==> is_page_of(
                base,
                n,
                #[trigger] unallocated(t, base, n)[i] as int,
            ),
        forall|i: int, j: int|
            0 <= i < j < unallocated(t, base, n).len() ==> unallocated(t, base, n)[i]
                < unallocated(t, base, n)[j],
    decreases n,
{
    if n > 0 {
        let m = (n - 1) as nat;
        assert(base + m * 4096 <= u64::MAX + 1) by (nonlinear_arith)
            requires base + n * 4096 <= u64::MAX + 1, m == n - 1;
        lemma_unallocated_exact(t, base, m);
        let prev = unallocated(t, base, m);
        let a = base + m * 4096;
        assert(0 <= a <= u64::MAX - 4095) by (nonlinear_arith)
            requires a == base + m * 4096, base + n * 4096 <= u64::MAX + 1, m == n - 1, 0 <= base;
        assert forall|i: int| 0 <= i < prev.len() implies #[trigger] prev[i] < a by {
            assert(is_page_of(base, m, prev[i] as int));
            let k = choose|k: int| #![trigger page_at(base, k)] 0 <= k < m && prev[i] == page_at(base, k);
            assert(base + k * 4096 < base + m * 4096) by (nonlinear_arith)
                requires k < m;
        }
        assert forall|k: int| 0 <= k < n implies (unallocated(t, base, n).contains(#[trigger] page_at(base, k) as u64)
            <==> !page_allocated(t, page_at(base, k))) by {
            if k < m {
                assert(base + k * 4096 < a) by (nonlinear_arith)
                    requires k < m, a == base + m * 4096;
                assert(0 <= base + k * 4096) by (nonlinear_arith)
                    requires 0 <= k, 0 <= base;
                if !page_allocated(t, a) {
                    let r = prev.push(a as u64);
                    if r.contains((base + k * 4096) as u64) {
                        let i = choose|i: int| 0 <= i < r.len() && r[i] == (base + k * 4096) as u64;
                        assert(i < prev.len());
                        assert(prev.contains((base + k * 4096) as u64));
                    }
                    if prev.contains((base + k * 4096) as u64) {
                        let i = choose|i: int| 0 <= i < prev.len() && prev[i] == (base + k * 4096) as u64;
                        assert(r[i] == prev[i]);
                    }
                }
            } else {
                assert(k == m);
                if !page_allocated(t, a) {
                    assert(prev.push(a as u64)[prev.len() as int] == a as u64);
                } else {
                    if prev.contains(a as u64) {
                        let i = choose|i: int| 0 <= i < prev.len() && prev[i] == a as u64;
                        assert(prev[i] < a);
                    }
                }
            }
        }
        let r = unallocated(t, base, n);
        assert forall|i: int|
            0 <= i < unallocated(t, base, n).len() implies is_page_of(
                base,
                n,
                #[trigger] unallocated(t, base, n)[i] as int,
            ) by {
            if i < prev.len() {
                assert(prev[i] == unallocated(t, base, m)[i]);
                assert(is_page_of(base, m, prev[i] as int));
                let k = choose|k: int| #![trigger page_at(base, k)] 0 <= k < m && prev[i] == page_at(base, k);
                assert(r[i] == prev[i]);
                assert(0 <= k < n && r[i] == page_at(base, k));
            } else {
                assert(r[i] == page_at(base, m as int));
                assert(0 <= m < n);
            }
        }
        assert forall|i: int, j: int| 0 <= i < j < r.len() implies r[i] < r[j] by {
            if j < prev.len() {
                assert(r[i] == prev[i] && r[j] == prev[j]);
            } else if r.len() > prev.len() {
                assert(r[i] == prev[i]);
                assert(r[j] == a as u64);
            }
        }
    }
}

/// Pages just recorded are found again: asking for them, or for fewer of
/// them from the same page, needs no second allocation.
pub proof fn lemma_recorded_is_covered(before: AllocTable, after: AllocTable, base: u64, pages: u64, fewer: u64)
    requires
        after@ == before@.push((base, pages)),
        fewer <= pages,
    ensures
        after.spec_covered(base, fewer),
{
    assert(fewer * 4096 <= pages * 4096) by (nonlinear_arith)
        requires fewer <= pages;
    assert(covers(after@[before@.len() as int].0, after@[before@.len() as int].1, base, fewer));
}

/// Remembering an allocation never forgets another: what was covered stays
/// covered.
pub proof fn lemma_record_keeps_covered(before: AllocTable, after: AllocTable, r: (u64, u64), base: u64, pages: u64)
    requires
        after@ == before@.push(r) || after@ == before@,
        before.spec_covered(base, pages),
    ensures
        after.spec_covered(base, pages),
{
    let i = choose|i: int| 0 <= i < before@.len() && covers(#[trigger] before@[i].0, before@[i].1, base, pages);
    assert(after@[i] == before@[i]);
}

// ---------------------------------------------------------------------------
// Handing over to the kernel.
// ---------------------------------------------------------------------------

/// Multiboot magic values passed to the kernel in EAX.
pub const MB1_BOOT_MAGIC: u32 = 0x2BAD_B002;
pub const MB2_BOOT_MAGIC: u32 = 0x36D7_6289;

/// Which boot information the kernel is given.
#[derive(Debug, Clone, Copy, PartialEq, Eq, Structural)]
pub enum BootInfo {
    Multiboot1,
    Multiboot2,
    /// None: the pointer passed is 0.
    Nothing,
}

/// How control passes to the kernel.
#[derive(Debug, Clone, Copy, PartialEq, Eq, Structural)]
pub enum Handoff {
    /// Down to 32-bit protected mode through the trampoline, with the boot
    /// information and this magic.
    Trampoline { info: BootInfo, magic: u32 },
    /// Straight into the 64-bit entry point.
    Direct { info: BootInfo },
}

/// A 32-bit kernel gets Multiboot1 information if that is the header it has
/// and Multiboot2 information otherwise; a 64-bit one gets Multiboot2
/// information if it asks for it, and none otherwise.
pub open spec fn spec_handoff(k: KernelInfo) -> Handoff {
    match k.boot_mode {
        BootMode::Protected32 => if k.mb_version == 1 {
            Handoff::Trampoline { info: BootInfo::Multiboot1, magic: MB1_BOOT_MAGIC }
        } else {
            Handoff::Trampoline { info: BootInfo::Multiboot2, magic: MB2_BOOT_MAGIC }
        },
        BootMode::Long64 => if k.mb_version == 2 {
            Handoff::Direct { info: BootInfo::Multiboot2 }
        } else {
            Handoff::Direct { info: BootInfo::Nothing }
        },
    }
}

/// How to start the kernel described by `k`.
pub fn handoff(k: &KernelInfo) -> (r: Handoff)
    ensures
        r == spec_handoff(*k),
{
    match k.boot_mode {
        BootMode::Protected32 => if k.mb_version == 1 {
            Handoff::Trampoline { info: BootInfo::Multiboot1, magic: MB1_BOOT_MAGIC }
        } else {
            Handoff::Trampoline { info: BootInfo::Multiboot2, magic: MB2_BOOT_MAGIC }
        },
        BootMode::Long64 => if k.mb_version == 2 {
            Handoff::Direct { info: BootInfo::Multiboot2 }
        } else {
            Handoff::Direct { info: BootInfo::Nothing }
        },
    }
}

/// Whether the framebuffer is asked for: only a Multiboot2 kernel gets a
/// framebuffer tag.
pub fn wants_framebuffer(k: &KernelInfo) -> (r: bool)
    ensures
        r == (k.mb_version == 2),
{
    k.mb_version == 2
}

/// Whatever a file holds, a recognised kernel's Multiboot version is 0, 1
/// or 2, and a kernel entered directly in long mode is an ELF64 one without
/// a Multiboot header.
pub proof fn lemma_kernel_shape(b: Seq<u8>)
    ensures
        spec_parse_kernel(b) matches Ok(k) ==> k.mb_version <= 2 && (k.boot_mode == BootMode::Long64
            ==> k.mb_version == 0 && b[4] == ELFCLASS64),
{
}

} // verus!
