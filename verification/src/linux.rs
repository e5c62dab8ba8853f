//! Preparing a Linux bzImage for the EFI handover protocol.
//!
//! A bzImage is two things stuck together: a few hundred bytes of *setup
//! header* describing the rest, then the compressed kernel. The header's
//! fields are at fixed byte offsets and are read as such. The handover
//! protocol says: load the second part, fill in a `boot_params` page from the
//! first, and call an entry point the header names; the kernel then exits
//! boot services itself.
//!
//! The caller reads the file, allocates memory and jumps; this module checks
//! the header, says how much memory to ask for and where the kernel goes in
//! it, and writes `boot_params` and the command line.

use vstd::prelude::*;
use vstd::string::StringSliceAdditionalSpecFns;
use crate::le::{le16, le32, le64, bytes32, zeros, lemma_le32_bytes32};

verus! {

/// The byte at `o`.
pub fn u8_at(b: &[u8], o: usize) -> (r: u8)
    requires
        o < b@.len(),
    ensures
        r == b@[o as int],
{
    b[o]
}

/// The little-endian `u16` at `o`.
pub fn u16_at(b: &[u8], o: usize) -> (r: u16)
    requires
        o + 2 <= b@.len(),
    ensures
        r == le16(b@, o as int),
{
    b[o] as u16 + 256 * (b[o + 1] as u16)
}

/// The little-endian `u32` at `o`.
pub fn u32_at(b: &[u8], o: usize) -> (r: u32)
    requires
        o + 4 <= b@.len(),
    ensures
        r == le32(b@, o as int),
{
    b[o] as u32 + 256 * (b[o + 1] as u32) + 65536 * (b[o + 2] as u32) + 16777216 * (b[o + 3] as u32)
}

/// The little-endian `u64` at `o`.
pub fn u64_at(b: &[u8], o: usize) -> (r: u64)
    requires
        o + 8 <= b@.len(),
    ensures
        r == le64(b@, o as int),
{
    let _len = b.len();
    let lo = u32_at(b, o) as u64;
    let hi = u32_at(b, o + 4) as u64;
    lo + 4294967296 * hi
}

/// Write `v` little-endian into the four bytes at `o`.
pub fn put_u32(b: &mut [u8], o: usize, v: u32)
    requires
        o + 4 <= old(b)@.len(),
    ensures
        final(b)@ == old(b)@.take(o as int) + bytes32(v) + old(b)@.skip(o + 4),
{
    let _len = b.len();
    b[o] = (v % 256) as u8;
    b[o + 1] = ((v / 256) % 256) as u8;
    b[o + 2] = ((v / 65536) % 256) as u8;
    b[o + 3] = ((v / 16777216) % 256) as u8;
    assert(final(b)@ =~= old(b)@.take(o as int) + bytes32(v) + old(b)@.skip(o + 4));
}

/// Reading back four bytes just written gives what was written.
pub proof fn lemma_put_then_get(before: Seq<u8>, after: Seq<u8>, o: int, v: u32)
    requires
        0 <= o,
        o + 4 <= before.len(),
        after == before.take(o) + bytes32(v) + before.skip(o + 4),
    ensures
        le32(after, o) == v,
        after.len() == before.len(),
        forall|i: int| 0 <= i < before.len() && !(o <= i < o + 4) ==> after[i] == before[i],
{
    lemma_le32_bytes32(v);
    let b = bytes32(v);
    assert(after[o] == b[0] && after[o + 1] == b[1] && after[o + 2] == b[2] && after[o + 3] == b[3]);
}

// Setup header fields, by offset from the start of the file. Also their
// offsets within boot_params, which holds the header at the same place.
pub const SETUP_SECTS: usize = 0x1F1;
pub const JUMP_DISPLACEMENT: usize = 0x201;
pub const BOOT_FLAG: usize = 0x1FE;
pub const HEADER_MAGIC: usize = 0x202;
pub const VERSION: usize = 0x206;
pub const TYPE_OF_LOADER: usize = 0x210;
pub const LOADFLAGS: usize = 0x211;
pub const CODE32_START: usize = 0x214;
pub const RAMDISK_IMAGE: usize = 0x218;
pub const RAMDISK_SIZE: usize = 0x21C;
pub const CMD_LINE_PTR: usize = 0x228;
pub const KERNEL_ALIGNMENT: usize = 0x230;
pub const RELOCATABLE: usize = 0x234;
pub const XLOADFLAGS: usize = 0x236;
pub const CMDLINE_SIZE: usize = 0x238;
pub const PREF_ADDRESS: usize = 0x258;
pub const INIT_SIZE: usize = 0x260;
pub const HANDOVER_OFFSET: usize = 0x264;

/// `boot_flag`, the last two bytes of the first sector.
pub const BOOT_FLAG_MAGIC: u16 = 0xAA55;
/// `"HdrS"`, which says there is a setup header worth reading.
pub const HDRS_MAGIC: u32 = 0x5372_6448;
/// The oldest protocol version with a handover entry point.
pub const MIN_VERSION: u16 = 0x020B;
/// `XLF_EFI_HANDOVER_64`: there is a 64-bit handover entry.
pub const XLF_EFI_HANDOVER_64: u16 = 8;
/// `LOADED_HIGH`: the kernel is loaded above the old 1 MiB line.
pub const LOADFLAG_LOADED_HIGH: u8 = 0x01;
/// `type_of_loader` for a loader with no assigned number.
pub const LOADER_UNKNOWN: u8 = 0xFF;
/// The 64-bit entry sits one sector past the 32-bit one.
pub const HANDOVER_64_OFFSET: u64 = 512;
/// The smallest file that can hold a setup header at all.
pub const MIN_IMAGE: usize = 0x1000;
/// The size of the `boot_params` page.
pub const BOOT_PARAMS_SIZE: usize = 4096;

/// Why a file cannot be booted through the handover protocol.
#[derive(Debug, Clone, Copy, PartialEq, Eq, Structural)]
pub enum HandoverError {
    /// Too small to hold a setup header.
    TooSmall,
    /// No boot flag, or no `HdrS` header.
    NotBzImage,
    /// A boot protocol older than the handover protocol; its version.
    ProtocolTooOld(u16),
    /// No 64-bit EFI handover entry.
    NoHandover64,
    /// The setup sectors run to or past the end of the file; how many it claims.
    SetupPastEnd(u64),
}

/// What the setup header of a bootable bzImage says.
#[derive(Debug, Clone, Copy, PartialEq, Eq, Structural)]
pub struct Handover {
    /// Boot protocol version.
    pub version: u16,
    /// Where the 32-bit handover entry is, from the start of the loaded kernel.
    pub handover_offset: u32,
    /// Setup sectors after the first.
    pub setup_sects: u64,
    /// Where the kernel proper starts in the file.
    pub kernel_offset: u64,
    /// Bytes of kernel proper in the file.
    pub kernel_len: u64,
    /// What the kernel needs in memory: it decompresses in place, so this is
    /// more than its size in the file.
    pub init_size: u32,
    /// The alignment the kernel wants.
    pub alignment: u32,
    /// Whether it may go anywhere, or only at `pref_address`.
    pub relocatable: bool,
    pub pref_address: u64,
    /// Bytes the kernel occupies in memory: the larger of `init_size` and its
    /// size in the file.
    pub need: u64,
    /// Where the setup header ends: `0x202` plus the displacement of the
    /// jump that opens the boot sector.
    pub header_end: u64,
    /// The longest command line the kernel takes; 0 for no limit.
    pub cmdline_size: u32,
}

/// What the setup header of the file `b` says, or why it cannot be booted.
pub open spec fn spec_check_bzimage(b: Seq<u8>) -> Result<Handover, HandoverError> {
    if b.len() < MIN_IMAGE {
        Err(HandoverError::TooSmall)
    } else if le16(b, BOOT_FLAG as int) != BOOT_FLAG_MAGIC || le32(b, HEADER_MAGIC as int) != HDRS_MAGIC {
        Err(HandoverError::NotBzImage)
    } else if le16(b, VERSION as int) < MIN_VERSION {
        Err(HandoverError::ProtocolTooOld(le16(b, VERSION as int) as u16))
    } else if (le16(b, XLOADFLAGS as int) as u16) & XLF_EFI_HANDOVER_64 == 0 {
        Err(HandoverError::NoHandover64)
    } else {
        let setup_sects: int = if b[SETUP_SECTS as int] == 0 { 4 } else { b[SETUP_SECTS as int] as int };
        let kernel_offset = (setup_sects + 1) * 512;
        if kernel_offset >= b.len() {
            Err(HandoverError::SetupPastEnd(setup_sects as u64))
        } else {
            let kernel_len = b.len() - kernel_offset;
            let init_size = le32(b, INIT_SIZE as int);
            Ok(
                Handover {
                    version: le16(b, VERSION as int) as u16,
                    handover_offset: le32(b, HANDOVER_OFFSET as int) as u32,
                    setup_sects: setup_sects as u64,
                    kernel_offset: kernel_offset as u64,
                    kernel_len: kernel_len as u64,
                    init_size: init_size as u32,
                    alignment: le32(b, KERNEL_ALIGNMENT as int) as u32,
                    relocatable: b[RELOCATABLE as int] != 0,
                    pref_address: le64(b, PREF_ADDRESS as int) as u64,
                    need: (if init_size >= kernel_len { init_size } else { kernel_len }) as u64,
                    header_end: (HEADER_MAGIC + b[JUMP_DISPLACEMENT as int]) as u64,
                    cmdline_size: le32(b, CMDLINE_SIZE as int) as u32,
                },
            )
        }
    }
}

/// Check that `image` is a bzImage that can be handed over to, and read its
/// setup header.
pub fn check_bzimage(image: &[u8]) -> (r: Result<Handover, HandoverError>)
    ensures
        r == spec_check_bzimage(image@),
{
    let len = image.len();
    if len < MIN_IMAGE {
        return Err(HandoverError::TooSmall);
    }
    if u16_at(image, BOOT_FLAG) != BOOT_FLAG_MAGIC || u32_at(image, HEADER_MAGIC) != HDRS_MAGIC {
        return Err(HandoverError::NotBzImage);
    }
    let version = u16_at(image, VERSION);
    if version < MIN_VERSION {
        return Err(HandoverError::ProtocolTooOld(version));
    }
    let xloadflags = u16_at(image, XLOADFLAGS);
    if xloadflags & XLF_EFI_HANDOVER_64 == 0 {
        return Err(HandoverError::NoHandover64);
    }
    let handover_offset = u32_at(image, HANDOVER_OFFSET);
    let setup_sects: u64 = match u8_at(image, SETUP_SECTS) {
        0 => 4,
        n => n as u64,
    };
    let kernel_offset = (setup_sects + 1) * 512;
    if kernel_offset >= len as u64 {
        return Err(HandoverError::SetupPastEnd(setup_sects));
    }
    let kernel_len = len as u64 - kernel_offset;
    let init_size = u32_at(image, INIT_SIZE);
    let need = if init_size as u64 >= kernel_len { init_size as u64 } else { kernel_len };
    Ok(
        Handover {
            version,
            handover_offset,
            setup_sects,
            kernel_offset,
            kernel_len,
            init_size,
            alignment: u32_at(image, KERNEL_ALIGNMENT),
            relocatable: u8_at(image, RELOCATABLE) != 0,
            pref_address: u64_at(image, PREF_ADDRESS),
            need,
            header_end: HEADER_MAGIC as u64 + u8_at(image, JUMP_DISPLACEMENT) as u64,
            cmdline_size: u32_at(image, CMDLINE_SIZE),
        },
    )
}

/// Pages to allocate for `bytes` bytes: whole pages, and at least one.
pub open spec fn spec_low_pages(bytes: u64) -> u64 {
    let p = (bytes + 4095) / 4096;
    (if p == 0 { 1 } else { p }) as u64
}

/// Pages `alloc_low` asks the firmware for, for `bytes` bytes.
pub fn low_pages(bytes: u64) -> (r: u64)
    ensures
        r == spec_low_pages(bytes),
{
    let p = bytes / 4096 + if bytes % 4096 == 0 { 0 } else { 1 };
    assert(p == (bytes + 4095) / 4096) by (nonlinear_arith)
        requires p == bytes / 4096 + if bytes % 4096 == 0 { 0int } else { 1int };
    if p == 0 { 1 } else { p }
}

/// Bytes to ask for for a relocatable kernel: what it needs, and room to
/// align it.
pub open spec fn spec_reloc_request(h: Handover) -> int {
    h.need + h.alignment
}

pub fn reloc_request(h: &Handover) -> (r: u64)
    requires
        h.need + h.alignment <= u64::MAX,
    ensures
        r == spec_reloc_request(*h),
{
    h.need + h.alignment as u64
}

/// Pages for a kernel that must go at its preferred address.
pub open spec fn spec_fixed_pages(h: Handover) -> u64 {
    ((h.need + 4095) / 4096) as u64
}

pub fn fixed_pages(h: &Handover) -> (r: u64)
    ensures
        r == spec_fixed_pages(*h),
{
    let p = h.need / 4096 + if h.need % 4096 == 0 { 0 } else { 1 };
    assert(p == (h.need + 4095) / 4096) by (nonlinear_arith)
        requires p == h.need / 4096 + if h.need % 4096 == 0 { 0int } else { 1int };
    p
}

/// Where a relocatable kernel goes in memory allocated at `addr`: rounded up
/// to its alignment, when it asks for more than byte alignment.
pub open spec fn spec_place_kernel(h: Handover, addr: u64) -> int {
    if h.alignment > 1 {
        ((addr + h.alignment - 1) / (h.alignment as int)) * h.alignment
    } else {
        addr as int
    }
}

pub fn place_kernel(h: &Handover, addr: u64) -> (r: u64)
    requires
        spec_place_kernel(*h, addr) <= u64::MAX,
    ensures
        r == spec_place_kernel(*h, addr),
        addr <= r,
        h.alignment > 1 ==> (r as int) % (h.alignment as int) == 0 && r < addr + h.alignment,
{
    if h.alignment > 1 {
        let a = h.alignment as u64;
        let rem = addr % a;
        proof {
            let up: int = if rem == 0 { addr as int } else { addr + (a - rem) };
            assert(up == ((addr + a - 1) / (a as int)) * a && up % (a as int) == 0 && addr <= up < addr + a) by (nonlinear_arith)
                requires a > 1, rem == addr % a, up == if rem == 0 { addr as int } else { addr + (a - rem) };
        }
        let r = if rem == 0 { addr } else { addr + (a - rem) };
        r
    } else {
        addr
    }
}

/// Where the 64-bit handover entry is: one sector past the 32-bit one, both
/// counted from the start of the loaded kernel.
pub open spec fn spec_handover_entry(h: Handover, kernel_addr: u64) -> int {
    kernel_addr + h.handover_offset + HANDOVER_64_OFFSET
}

/// The 64-bit handover entry of a kernel loaded at `kernel_addr`, if that
/// address can be written down.
pub fn handover_entry(h: &Handover, kernel_addr: u64) -> (r: Option<u64>)
    ensures
        match r {
            Some(e) => e == spec_handover_entry(*h, kernel_addr),
            None => spec_handover_entry(*h, kernel_addr) > u64::MAX,
        },
{
    if kernel_addr > u64::MAX - HANDOVER_64_OFFSET - h.handover_offset as u64 {
        None
    } else {
        Some(kernel_addr + h.handover_offset as u64 + HANDOVER_64_OFFSET)
    }
}

/// The last character boundary of `bytes` at or before `n`.
pub open spec fn boundary_at_most(bytes: Seq<u8>, n: int) -> int
    decreases n,
{
    if n <= 0 {
        0
    } else if vstd::utf8::is_char_boundary(bytes, n) {
        n
    } else {
        boundary_at_most(bytes, n - 1)
    }
}

/// The command line as the kernel reads it: when the kernel has a limit and
/// the line is longer, cut at the last character boundary within the limit,
/// so no character is split; then NUL-terminated.
pub open spec fn spec_command_line(cmdline: Seq<u8>, max: u32) -> Seq<u8> {
    let kept = if max > 0 && cmdline.len() > max {
        cmdline.take(boundary_at_most(cmdline, max as int))
    } else {
        cmdline
    };
    kept + seq![0u8]
}

/// The command line bytes to place in memory for the kernel.
pub fn command_line(cmdline: &str, h: &Handover) -> (r: Vec<u8>)
    ensures
        r@ == spec_command_line(cmdline.spec_bytes(), h.cmdline_size),
{
    let bytes = cmdline.as_bytes();
    let max = h.cmdline_size as usize;
    let n = if max > 0 && bytes.len() > max {
        let mut k = max;
        while k > 0 && !cmdline.is_char_boundary(k)
            invariant
                k <= max,
                boundary_at_most(cmdline.spec_bytes(), k as int) == boundary_at_most(
                    cmdline.spec_bytes(),
                    max as int,
                ),
            decreases k,
        {
            k = k - 1;
        }
        k
    } else {
        bytes.len()
    };
    let mut out: Vec<u8> = Vec::new();
    let mut i: usize = 0;
    while i < n
        invariant
            n <= bytes@.len(),
            i <= n,
            out@ == bytes@.take(i as int),
        decreases n - i,
    {
        out.push(bytes[i]);
        i = i + 1;
        assert(out@ =~= bytes@.take(i as int));
    }
    out.push(0);
    assert(bytes@.take(bytes@.len() as int) =~= bytes@);
    out
}

/// Four bytes of `s` at `o` replaced by `v`, little-endian.
pub open spec fn set32(s: Seq<u8>, o: int, v: u32) -> Seq<u8> {
    s.take(o) + bytes32(v) + s.skip(o + 4)
}

/// The `boot_params` page: zeros with the setup header copied in at the
/// offsets it has in the file, then told where the command line, the
/// ramdisk (if any) and the kernel are, that the loader is unnamed, and that
/// the kernel is loaded high.
pub open spec fn spec_boot_params(
    image: Seq<u8>,
    h: Handover,
    cmd_addr: u64,
    ramdisk: Option<(u64, u64)>,
    kernel_addr: u64,
) -> Seq<u8> {
    let hdr = zeros(SETUP_SECTS as int) + image.subrange(SETUP_SECTS as int, h.header_end as int)
        + zeros(BOOT_PARAMS_SIZE - h.header_end);
    let with_cmd = set32(hdr, CMD_LINE_PTR as int, cmd_addr as u32);
    let with_rd = match ramdisk {
        Some((addr, size)) => set32(
            set32(with_cmd, RAMDISK_IMAGE as int, addr as u32),
            RAMDISK_SIZE as int,
            size as u32,
        ),
        None => with_cmd,
    };
    let with_loader = with_rd.update(TYPE_OF_LOADER as int, LOADER_UNKNOWN).update(
        LOADFLAGS as int,
        with_rd[LOADFLAGS as int] | LOADFLAG_LOADED_HIGH,
    );
    set32(with_loader, CODE32_START as int, kernel_addr as u32)
}

/// Write `boot_params` for the kernel in `image`, whose command line is at
/// `cmd_addr`, whose ramdisk (address, size) is `ramdisk`, and which is
/// loaded at `kernel_addr`. The addresses are below 4 GiB: the header holds
/// 32 bits of each.
pub fn boot_params(
    image: &[u8],
    h: &Handover,
    cmd_addr: u64,
    ramdisk: Option<(u64, u64)>,
    kernel_addr: u64,
) -> (r: Vec<u8>)
    requires
        spec_check_bzimage(image@) == Ok::<Handover, HandoverError>(*h),
    ensures
        r@ == spec_boot_params(image@, *h, cmd_addr, ramdisk, kernel_addr),
        r@.len() == BOOT_PARAMS_SIZE,
{
    let end = h.header_end as usize;
    let mut bp: Vec<u8> = Vec::new();
    crate::le::push_zeros(&mut bp, SETUP_SECTS);
    let mut i: usize = SETUP_SECTS;
    let ghost z = bp@;
    while i < end
        invariant
            SETUP_SECTS <= i <= end <= 0x301,
            end < image@.len(),
            bp@ == z + image@.subrange(SETUP_SECTS as int, i as int),
        decreases end - i,
    {
        bp.push(image[i]);
        i = i + 1;
        assert(bp@ =~= z + image@.subrange(SETUP_SECTS as int, i as int));
    }
    crate::le::push_zeros(&mut bp, BOOT_PARAMS_SIZE - end);
    let s = bp.as_mut_slice();
    put_u32(s, CMD_LINE_PTR, cmd_addr as u32);
    match ramdisk {
        Some((addr, size)) => {
            put_u32(s, RAMDISK_IMAGE, addr as u32);
            put_u32(s, RAMDISK_SIZE, size as u32);
        },
        None => {},
    }
    s[TYPE_OF_LOADER] = LOADER_UNKNOWN;
    s[LOADFLAGS] = s[LOADFLAGS] | LOADFLAG_LOADED_HIGH;
    put_u32(s, CODE32_START, kernel_addr as u32);
    bp
}

/// What `boot_params` tells the kernel reads back as it was given: the
/// command line, ramdisk and kernel addresses, the unnamed loader, the
/// loaded-high flag; and every other byte of the setup header is the file's.
pub proof fn lemma_boot_params_fields(
    image: Seq<u8>,
    h: Handover,
    cmd_addr: u64,
    ramdisk: Option<(u64, u64)>,
    kernel_addr: u64,
)
    requires
        spec_check_bzimage(image) == Ok::<Handover, HandoverError>(h),
    ensures
        ({
            let bp = spec_boot_params(image, h, cmd_addr, ramdisk, kernel_addr);
            &&& bp.len() == BOOT_PARAMS_SIZE
            &&& le32(bp, CMD_LINE_PTR as int) == cmd_addr as u32
            &&& le32(bp, CODE32_START as int) == kernel_addr as u32
            &&& bp[TYPE_OF_LOADER as int] == LOADER_UNKNOWN
            &&& bp[LOADFLAGS as int] & LOADFLAG_LOADED_HIGH == LOADFLAG_LOADED_HIGH
            &&& ramdisk matches Some((a, sz)) ==> le32(bp, RAMDISK_IMAGE as int) == a as u32
                && le32(bp, RAMDISK_SIZE as int) == sz as u32
            &&& forall|i: int|
                SETUP_SECTS <= i < h.header_end && !(TYPE_OF_LOADER <= i < RAMDISK_SIZE + 4)
                    && !(CMD_LINE_PTR <= i < CMD_LINE_PTR + 4) ==> bp[i] == image[i]
        }),
{
    let hdr = zeros(SETUP_SECTS as int) + image.subrange(SETUP_SECTS as int, h.header_end as int)
        + zeros(BOOT_PARAMS_SIZE - h.header_end);
    assert(hdr.len() == BOOT_PARAMS_SIZE);
    let with_cmd = set32(hdr, CMD_LINE_PTR as int, cmd_addr as u32);
    lemma_put_then_get(hdr, with_cmd, CMD_LINE_PTR as int, cmd_addr as u32);
    let with_rd = match ramdisk {
        Some((addr, size)) => set32(
            set32(with_cmd, RAMDISK_IMAGE as int, addr as u32),
            RAMDISK_SIZE as int,
            size as u32,
        ),
        None => with_cmd,
    };
    match ramdisk {
        Some((addr, size)) => {
            let r1 = set32(with_cmd, RAMDISK_IMAGE as int, addr as u32);
            lemma_put_then_get(with_cmd, r1, RAMDISK_IMAGE as int, addr as u32);
            lemma_put_then_get(r1, with_rd, RAMDISK_SIZE as int, size as u32);
        },
        None => {},
    }
    let lf = with_rd[LOADFLAGS as int];
    let with_loader = with_rd.update(TYPE_OF_LOADER as int, LOADER_UNKNOWN).update(
        LOADFLAGS as int,
        lf | LOADFLAG_LOADED_HIGH,
    );
    assert((lf | 1u8) & 1u8 == 1u8) by (bit_vector);
    let bp = set32(with_loader, CODE32_START as int, kernel_addr as u32);
    lemma_put_then_get(with_loader, bp, CODE32_START as int, kernel_addr as u32);
    assert(bp == spec_boot_params(image, h, cmd_addr, ramdisk, kernel_addr));
}

proof fn lemma_boundary_at_most(bytes: Seq<u8>, n: int)
    requires
        vstd::utf8::valid_utf8(bytes),
        0 <= n,
    ensures
        0 <= boundary_at_most(bytes, n) <= n,
        vstd::utf8::is_char_boundary(bytes, boundary_at_most(bytes, n)),
        forall|j: int|
            boundary_at_most(bytes, n) < j <= n ==> !vstd::utf8::is_char_boundary(bytes, j),
    decreases n,
{
    if n > 0 && !vstd::utf8::is_char_boundary(bytes, n) {
        lemma_boundary_at_most(bytes, n - 1);
    }
    if n == 0 {
        vstd::utf8::is_char_boundary_start_end_of_seq(bytes);
    }
}

/// The command line the kernel gets is the text it was given, or, when that
/// is longer than the kernel's limit, the longest prefix within the limit that
/// splits no character; so it is always whole UTF-8 text, spelling a prefix
/// of the given text. It ends with its NUL.
pub proof fn lemma_command_line(cmdline: &str, max: u32)
    ensures
        ({
            let r = spec_command_line(cmdline.spec_bytes(), max);
            let kept = r.drop_last();
            &&& r.last() == 0
            &&& cmdline.spec_bytes().len() <= max || max == 0 ==> kept == cmdline.spec_bytes()
            &&& max > 0 ==> kept.len() <= max
            &&& kept == cmdline.spec_bytes().take(kept.len() as int)
            &&& vstd::utf8::is_char_boundary(cmdline.spec_bytes(), kept.len() as int)
            &&& forall|j: int|
                kept.len() < j <= max && j <= cmdline.spec_bytes().len()
                    ==> !vstd::utf8::is_char_boundary(cmdline.spec_bytes(), j)
            &&& vstd::utf8::valid_utf8(kept)
            &&& vstd::utf8::decode_utf8(kept) == cmdline@.take(vstd::utf8::decode_utf8(kept).len() as int)
        }),
{
    let b = cmdline.spec_bytes();
    vstd::utf8::encode_utf8_valid_utf8(cmdline@);
    vstd::utf8::encode_utf8_decode_utf8(cmdline@);
    let r = spec_command_line(b, max);
    let kept = r.drop_last();
    let k = if max > 0 && b.len() > max { boundary_at_most(b, max as int) } else { b.len() as int };
    assert(kept =~= b.take(k));
    if max > 0 && b.len() > max {
        lemma_boundary_at_most(b, max as int);
    } else {
        vstd::utf8::is_char_boundary_start_end_of_seq(b);
    }
    assert(b.take(k) =~= b.subrange(0, k));
    vstd::utf8::valid_utf8_split(b, k);
    vstd::utf8::decode_utf8_split(b, k);
}

} // verus!
