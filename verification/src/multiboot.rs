//! Multiboot1 and Multiboot2 boot information, laid out from the memory map
//! the firmware leaves after `ExitBootServices`.
//!
//! The builders return the bytes of the structures; the caller copies them
//! into buffers that survive the exit and hands the kernel their address.

use vstd::prelude::*;
use crate::le::{
    bytes32, bytes64, zeros, align8, pad8, lemma_align8, push_u32, push_u64, push_zeros,
    push_pad8,
};
use crate::gop::FbInfo;
use crate::modules::ModuleInfo;

verus! {

/// One descriptor of the firmware's memory map.
#[derive(Clone, Copy, PartialEq, Eq, Structural)]
pub struct MemDesc {
    /// The UEFI memory type.
    pub ty: u32,
    pub phys_start: u64,
    /// Length in 4 KiB pages.
    pub page_count: u64,
}

// UEFI memory types that the Multiboot map distinguishes.
pub const EFI_LOADER_CODE: u32 = 1;
pub const EFI_LOADER_DATA: u32 = 2;
pub const EFI_BOOT_SERVICES_CODE: u32 = 3;
pub const EFI_BOOT_SERVICES_DATA: u32 = 4;
pub const EFI_CONVENTIONAL: u32 = 7;
pub const EFI_ACPI_RECLAIM: u32 = 9;
pub const EFI_ACPI_NON_VOLATILE: u32 = 10;

// Multiboot memory types.
pub const MB_MEMORY_AVAILABLE: u32 = 1;
pub const MB_MEMORY_RESERVED: u32 = 2;
pub const MB_MEMORY_ACPI_RECLAIMABLE: u32 = 3;
pub const MB_MEMORY_NVS: u32 = 4;

/// The Multiboot type of memory of a UEFI type: what boot services and the
/// loader used is free once they are gone.
pub open spec fn mb_memory_type(efi_type: u32) -> u32 {
    if efi_type == EFI_CONVENTIONAL || efi_type == EFI_LOADER_CODE || efi_type == EFI_LOADER_DATA
        || efi_type == EFI_BOOT_SERVICES_CODE || efi_type == EFI_BOOT_SERVICES_DATA {
        MB_MEMORY_AVAILABLE
    } else if efi_type == EFI_ACPI_RECLAIM {
        MB_MEMORY_ACPI_RECLAIMABLE
    } else if efi_type == EFI_ACPI_NON_VOLATILE {
        MB_MEMORY_NVS
    } else {
        MB_MEMORY_RESERVED
    }
}

/// Convert an EFI memory type to a Multiboot memory type.
pub fn efi_memtype_to_mb(efi_type: u32) -> (r: u32)
    ensures
        r == mb_memory_type(efi_type),
        1 <= r <= 4,
{
    if efi_type == EFI_CONVENTIONAL || efi_type == EFI_LOADER_CODE || efi_type == EFI_LOADER_DATA
        || efi_type == EFI_BOOT_SERVICES_CODE || efi_type == EFI_BOOT_SERVICES_DATA {
        MB_MEMORY_AVAILABLE
    } else if efi_type == EFI_ACPI_RECLAIM {
        MB_MEMORY_ACPI_RECLAIMABLE
    } else if efi_type == EFI_ACPI_NON_VOLATILE {
        MB_MEMORY_NVS
    } else {
        MB_MEMORY_RESERVED
    }
}

/// A region's length in bytes; the product wraps at 2^64.
pub open spec fn region_len(d: MemDesc) -> u64 {
    ((d.page_count * 4096) % 0x1_0000_0000_0000_0000) as u64
}

fn region_len_exec(d: &MemDesc) -> (r: u64)
    ensures
        r == region_len(*d),
{
    let r = d.page_count.wrapping_mul(4096);
    assert(r == region_len(*d)) by (nonlinear_arith)
        requires r == vstd::wrapping::u64_specs::wrapping_mul(d.page_count, 4096u64);
    r
}

/// Where a module's data ends, as the 32 bits the formats hold; the sum wraps.
pub open spec fn module_end32(m: ModuleInfo) -> u32 {
    ((m.phys_start + m.size) % 0x1_0000_0000_0000_0000) as u32
}

fn module_end32_exec(m: &ModuleInfo) -> (r: u32)
    ensures
        r == module_end32(*m),
{
    let e = m.phys_start.wrapping_add(m.size);
    assert(e == (m.phys_start + m.size) % 0x1_0000_0000_0000_0000);
    e as u32
}

// ---------------------------------------------------------------------------
// Multiboot2.
// ---------------------------------------------------------------------------

pub const MB2_TAG_TYPE_END: u32 = 0;
pub const MB2_TAG_TYPE_MODULE: u32 = 3;
pub const MB2_TAG_TYPE_MMAP: u32 = 6;
pub const MB2_TAG_TYPE_FRAMEBUFFER: u32 = 8;

/// The size of the Multiboot2 information buffer.
pub const MB2_INFO_SIZE: usize = 8192;
/// Bytes in one Multiboot2 memory map entry.
pub const MB2_MMAP_ENTRY_SIZE: usize = 24;
/// Bytes in the framebuffer tag.
pub const MB2_FB_TAG_SIZE: usize = 37;

/// One memory map entry: base, length, type, and a reserved zero.
pub open spec fn mb2_mmap_entry(d: MemDesc) -> Seq<u8> {
    bytes64(d.phys_start) + bytes64(region_len(d)) + bytes32(mb_memory_type(d.ty)) + bytes32(0)
}

pub open spec fn mb2_mmap_entries(ds: Seq<MemDesc>) -> Seq<u8>
    decreases ds.len(),
{
    if ds.len() == 0 {
        seq![]
    } else {
        mb2_mmap_entries(ds.drop_last()) + mb2_mmap_entry(ds.last())
    }
}

/// How many memory map entries fit: the buffer holds the 8-byte header, the
/// 16-byte tag header and whole entries after them.
pub open spec fn mb2_mmap_count(n: int) -> int {
    if n <= 340 { n } else { 340 }
}

/// The memory map tag: type, size, entry size, entry version, entries.
#[verifier::opaque]
pub open spec fn mb2_mmap_tag(ds: Seq<MemDesc>) -> Seq<u8> {
    let k = mb2_mmap_count(ds.len() as int);
    bytes32(MB2_TAG_TYPE_MMAP) + bytes32((16 + 24 * k) as u32) + bytes32(24) + bytes32(0)
        + mb2_mmap_entries(ds.take(k))
}

/// A module tag: type, size, start, end, and the NUL-terminated name.
#[verifier::opaque]
pub open spec fn mb2_module_tag(m: ModuleInfo, name: Seq<u8>) -> Seq<u8> {
    bytes32(MB2_TAG_TYPE_MODULE) + bytes32((17 + name.len()) as u32) + bytes32(
        m.phys_start as u32,
    ) + bytes32(module_end32(m)) + name + seq![0u8]
}

/// Module tags for the modules from `i` on, each 8-byte aligned, until one
/// does not fit with room left after it for the terminating tag; it and those
/// after it are left out.
pub open spec fn mb2_add_modules(
    acc: Seq<u8>,
    ms: Seq<ModuleInfo>,
    names: Seq<Seq<u8>>,
    i: int,
) -> Seq<u8>
    decreases ms.len() - i,
{
    if i < 0 || i >= ms.len() {
        acc
    } else {
        let tag = mb2_module_tag(ms[i], names[i]);
        if acc.len() + tag.len() + 8 > MB2_INFO_SIZE {
            acc
        } else {
            mb2_add_modules(pad8(acc + tag), ms, names, i + 1)
        }
    }
}

/// The framebuffer tag.
#[verifier::opaque]
pub open spec fn mb2_fb_tag(f: FbInfo) -> Seq<u8> {
    bytes32(MB2_TAG_TYPE_FRAMEBUFFER) + bytes32(37) + bytes64(f.addr) + bytes32(f.pitch) + bytes32(
        f.width,
    ) + bytes32(f.height) + seq![
        f.bpp,
        f.fb_type,
        0u8,
        f.red_pos,
        f.red_size,
        f.green_pos,
        f.green_size,
        f.blue_pos,
        f.blue_size,
    ]
}

/// The framebuffer tag, if there is a framebuffer and the tag fits with room
/// left after it for the terminating tag.
pub open spec fn mb2_add_fb(acc: Seq<u8>, fb: Option<FbInfo>) -> Seq<u8> {
    match fb {
        None => acc,
        Some(f) => pad8(
            if acc.len() + MB2_FB_TAG_SIZE + 8 <= MB2_INFO_SIZE {
                acc + mb2_fb_tag(f)
            } else {
                acc
            },
        ),
    }
}

/// The terminating tag, for which room is always kept.
pub open spec fn mb2_add_end(acc: Seq<u8>) -> Seq<u8> {
    acc + bytes32(MB2_TAG_TYPE_END) + bytes32(8)
}

/// The tags after the fixed header, preceded by 8 placeholder bytes.
pub open spec fn mb2_tags(
    ds: Seq<MemDesc>,
    fb: Option<FbInfo>,
    ms: Seq<ModuleInfo>,
    names: Seq<Seq<u8>>,
) -> Seq<u8> {
    let a0 = pad8(zeros(8) + mb2_mmap_tag(ds));
    mb2_add_end(mb2_add_fb(mb2_add_modules(a0, ms, names, 0), fb))
}

/// The whole Multiboot2 information buffer: the fixed header (total size,
/// reserved), the tags, and zeros to the end of the buffer.
pub open spec fn mb2_image(
    ds: Seq<MemDesc>,
    fb: Option<FbInfo>,
    ms: Seq<ModuleInfo>,
    names: Seq<Seq<u8>>,
) -> Seq<u8> {
    let t = mb2_tags(ds, fb, ms, names);
    bytes32(t.len() as u32) + bytes32(0) + t.subrange(8, t.len() as int) + zeros(
        MB2_INFO_SIZE - t.len(),
    )
}

pub open spec fn names_view(names: Seq<Vec<u8>>) -> Seq<Seq<u8>> {
    names.map_values(|n: Vec<u8>| n@)
}

pub open spec fn opt_fb(fb: Option<&FbInfo>) -> Option<FbInfo> {
    match fb {
        Some(f) => Some(*f),
        None => None,
    }
}

/// Padding keeps room for the terminating tag when there was room for it,
/// and at least that much more, before the padding.
proof fn lemma_pad8_end_room(s: Seq<u8>)
    ensures
        pad8(s).len() % 8 == 0,
        s.len() <= pad8(s).len(),
        s.len() + 8 <= MB2_INFO_SIZE ==> pad8(s).len() + 8 <= MB2_INFO_SIZE,
{
    lemma_align8(s.len() as int);
}

/// The memory map tag, written after the 8 placeholder bytes.
fn push_mb2_mmap(out: &mut Vec<u8>, memory_map: &[MemDesc])
    requires
        old(out)@.len() == 8,
    ensures
        final(out)@ == old(out)@ + mb2_mmap_tag(memory_map@),
{
    let n = memory_map.len();
    let k = if n <= 340 { n } else { 340 };
    push_u32(out, MB2_TAG_TYPE_MMAP);
    push_u32(out, (16 + 24 * k) as u32);
    push_u32(out, MB2_MMAP_ENTRY_SIZE as u32);
    push_u32(out, 0);
    let ghost head = out@;
    let mut i: usize = 0;
    while i < k
        invariant
            k <= n == memory_map@.len(),
            i <= k,
            out@ == head + mb2_mmap_entries(memory_map@.take(i as int)),
        decreases k - i,
    {
        let d = memory_map[i];
        let ghost before = out@;
        push_u64(out, d.phys_start);
        push_u64(out, region_len_exec(&d));
        push_u32(out, efi_memtype_to_mb(d.ty));
        push_u32(out, 0);
        assert(memory_map@.take(i + 1).drop_last() =~= memory_map@.take(i as int));
        assert(out@ =~= before + mb2_mmap_entry(d));
        i = i + 1;
    }
    reveal(mb2_mmap_tag);
    assert(out@ =~= old(out)@ + mb2_mmap_tag(memory_map@));
}

proof fn lemma_mb2_entries_len(ds: Seq<MemDesc>)
    ensures
        mb2_mmap_entries(ds).len() == 24 * ds.len(),
    decreases ds.len(),
{
    if ds.len() > 0 {
        lemma_mb2_entries_len(ds.drop_last());
    }
}

/// One module tag, at the end of `out`.
fn push_mb2_module(out: &mut Vec<u8>, m: &ModuleInfo, name: &Vec<u8>)
    requires
        name@.len() <= MB2_INFO_SIZE,
    ensures
        final(out)@ == old(out)@ + mb2_module_tag(*m, name@),
{
    push_u32(out, MB2_TAG_TYPE_MODULE);
    push_u32(out, (17 + name.len()) as u32);
    push_u32(out, m.phys_start as u32);
    push_u32(out, module_end32_exec(m));
    let mut j: usize = 0;
    let ghost mid = out@;
    while j < name.len()
        invariant
            j <= name@.len(),
            out@ == mid + name@.take(j as int),
        decreases name@.len() - j,
    {
        out.push(name[j]);
        j = j + 1;
        assert(out@ =~= mid + name@.take(j as int));
    }
    out.push(0);
    assert(name@.take(name@.len() as int) =~= name@);
    reveal(mb2_module_tag);
    assert(out@ =~= old(out)@ + mb2_module_tag(*m, name@));
}

/// Module tags, each 8-byte aligned, until one does not fit.
fn push_mb2_modules(out: &mut Vec<u8>, modules: &[ModuleInfo], names: &[Vec<u8>])
    requires
        names@.len() == modules@.len(),
        old(out)@.len() + 8 <= MB2_INFO_SIZE,
        old(out)@.len() % 8 == 0,
    ensures
        final(out)@ == mb2_add_modules(old(out)@, modules@, names_view(names@), 0),
        final(out)@.len() + 8 <= MB2_INFO_SIZE,
        final(out)@.len() % 8 == 0,
{
    let ghost ns = names_view(names@);
    let ghost a0 = old(out)@;
    let mut i: usize = 0;
    let mut fits = true;
    while i < modules.len() && fits
        invariant
            names@.len() == modules@.len(),
            ns == names_view(names@),
            i <= modules@.len(),
            out@.len() + 8 <= MB2_INFO_SIZE,
            out@.len() % 8 == 0,
            fits ==> mb2_add_modules(out@, modules@, ns, i as int) == mb2_add_modules(a0, modules@, ns, 0),
            !fits ==> out@ == mb2_add_modules(a0, modules@, ns, 0),
        decreases modules@.len() - i + (if fits { 1int } else { 0int }),
    {
        let m = &modules[i];
        let name = &names[i];
        assert(ns[i as int] == name@);
        proof { lemma_mb2_tag_lens(seq![], *m, name@, arbitrary()); }
        if name.len() > MB2_INFO_SIZE || out.len() + 17 + name.len() + 8 > MB2_INFO_SIZE {
            fits = false;
        } else {
            push_mb2_module(out, m, name);
            proof { lemma_pad8_end_room(out@); }
            push_pad8(out);
            i = i + 1;
        }
    }
}

/// The framebuffer tag, if there is a framebuffer and it fits.
fn push_mb2_fb(out: &mut Vec<u8>, fb: Option<&FbInfo>)
    requires
        old(out)@.len() + 8 <= MB2_INFO_SIZE,
        old(out)@.len() % 8 == 0,
    ensures
        final(out)@ == mb2_add_fb(old(out)@, opt_fb(fb)),
        final(out)@.len() + 8 <= MB2_INFO_SIZE,
        final(out)@.len() % 8 == 0,
{
    match fb {
        Some(f) => {
            if out.len() + MB2_FB_TAG_SIZE + 8 <= MB2_INFO_SIZE {
                push_u32(out, MB2_TAG_TYPE_FRAMEBUFFER);
                push_u32(out, MB2_FB_TAG_SIZE as u32);
                push_u64(out, f.addr);
                push_u32(out, f.pitch);
                push_u32(out, f.width);
                push_u32(out, f.height);
                out.push(f.bpp);
                out.push(f.fb_type);
                out.push(0);
                out.push(f.red_pos);
                out.push(f.red_size);
                out.push(f.green_pos);
                out.push(f.green_size);
                out.push(f.blue_pos);
                out.push(f.blue_size);
                reveal(mb2_fb_tag);
                assert(out@ =~= old(out)@ + mb2_fb_tag(*f));
            }
            proof { lemma_pad8_end_room(out@); }
            push_pad8(out);
        },
        None => {},
    }
}

/// Build the Multiboot2 boot information from the final memory map, the
/// framebuffer (if any) and the loaded modules, whose names are `names`,
/// into `out`.
///
/// It is built after boot services are gone, when nothing can be allocated:
/// `out` starts empty, and only bytes are pushed onto it, so a vector given
/// room for [`MB2_INFO_SIZE`] bytes beforehand is never reallocated.
pub fn build_mb2_info(
    out: &mut Vec<u8>,
    memory_map: &[MemDesc],
    fb: Option<&FbInfo>,
    modules: &[ModuleInfo],
    names: &[Vec<u8>],
)
    requires
        old(out)@.len() == 0,
        names@.len() == modules@.len(),
    ensures
        final(out)@ == mb2_image(memory_map@, opt_fb(fb), modules@, names_view(names@)),
        final(out)@.len() == MB2_INFO_SIZE,
{
    push_zeros(out, 8);
    push_mb2_mmap(out, memory_map);
    proof {
        lemma_mb2_tag_lens(memory_map@, arbitrary(), seq![], arbitrary());
        lemma_pad8_end_room(out@);
    }
    push_pad8(out);
    push_mb2_modules(out, modules, names);
    push_mb2_fb(out, fb);
    push_u32(out, MB2_TAG_TYPE_END);
    push_u32(out, 8);
    let ghost t = out@;
    assert(t =~= mb2_tags(memory_map@, opt_fb(fb), modules@, names_view(names@)));
    proof { lemma_mb2_tags_start_with_zeros(memory_map@, opt_fb(fb), modules@, names_view(names@)); }
    // The fixed header: the total size over the first placeholder bytes;
    // the reserved word stays zero.
    let total = out.len();
    crate::linux::put_u32(out.as_mut_slice(), 0, total as u32);
    assert(t[4] == 0 && t[5] == 0 && t[6] == 0 && t[7] == 0) by {
        assert(t.take(8)[4] == 0 && t.take(8)[5] == 0 && t.take(8)[6] == 0 && t.take(8)[7] == 0);
    }
    assert(t.skip(4) =~= bytes32(0) + t.subrange(8, t.len() as int));
    push_zeros(out, MB2_INFO_SIZE - total);
    assert(out@ =~= mb2_image(memory_map@, opt_fb(fb), modules@, names_view(names@)));
}

proof fn lemma_mb2_tag_lens(ds: Seq<MemDesc>, m: ModuleInfo, name: Seq<u8>, f: FbInfo)
    ensures
        mb2_mmap_tag(ds).len() == 16 + 24 * mb2_mmap_count(ds.len() as int),
        mb2_module_tag(m, name).len() == 17 + name.len(),
        mb2_fb_tag(f).len() == 37,
{
    reveal(mb2_mmap_tag);
    reveal(mb2_module_tag);
    reveal(mb2_fb_tag);
    lemma_mb2_entries_len(ds.take(mb2_mmap_count(ds.len() as int)));
}

proof fn lemma_mb2_add_modules_prefix(acc: Seq<u8>, ms: Seq<ModuleInfo>, names: Seq<Seq<u8>>, i: int)
    ensures
        mb2_add_modules(acc, ms, names, i).len() >= acc.len(),
        mb2_add_modules(acc, ms, names, i).take(acc.len() as int) == acc,
    decreases ms.len() - i,
{
    if 0 <= i < ms.len() {
        let tag = mb2_module_tag(ms[i], names[i]);
        if acc.len() + tag.len() <= MB2_INFO_SIZE {
            let next = pad8(acc + tag);
            lemma_mb2_add_modules_prefix(next, ms, names, i + 1);
            let r = mb2_add_modules(next, ms, names, i + 1);
            assert(r.take(acc.len() as int) =~= r.take(next.len() as int).take(acc.len() as int));
            assert(next.take(acc.len() as int) =~= acc);
        }
    } else {
        assert(acc.take(acc.len() as int) =~= acc);
    }
}

/// The tags begin with the eight bytes the fixed header is written over.
proof fn lemma_mb2_tags_start_with_zeros(
    ds: Seq<MemDesc>,
    fb: Option<FbInfo>,
    ms: Seq<ModuleInfo>,
    names: Seq<Seq<u8>>,
)
    ensures
        mb2_tags(ds, fb, ms, names).len() >= 8,
        mb2_tags(ds, fb, ms, names).take(8) == zeros(8),
{
    let a0 = pad8(zeros(8) + mb2_mmap_tag(ds));
    assert(a0.take(8) =~= zeros(8));
    lemma_mb2_add_modules_prefix(a0, ms, names, 0);
    let a1 = mb2_add_modules(a0, ms, names, 0);
    assert(a1.take(8) =~= a1.take(a0.len() as int).take(8));
    let a2 = mb2_add_fb(a1, fb);
    assert(a2.take(8) =~= a1.take(8));
    let t = mb2_add_end(a2);
    assert(t.take(8) =~= a2.take(8));
}

proof fn lemma_mb2_add_modules_len(acc: Seq<u8>, ms: Seq<ModuleInfo>, names: Seq<Seq<u8>>, i: int)
    requires
        acc.len() + 8 <= MB2_INFO_SIZE,
        acc.len() % 8 == 0,
    ensures
        mb2_add_modules(acc, ms, names, i).len() + 8 <= MB2_INFO_SIZE,
        mb2_add_modules(acc, ms, names, i).len() % 8 == 0,
        mb2_add_modules(acc, ms, names, i).len() >= acc.len(),
    decreases ms.len() - i,
{
    if 0 <= i < ms.len() {
        let tag = mb2_module_tag(ms[i], names[i]);
        if acc.len() + tag.len() + 8 <= MB2_INFO_SIZE {
            lemma_pad8_end_room(acc + tag);
            lemma_mb2_add_modules_len(pad8(acc + tag), ms, names, i + 1);
        }
    }
}

proof fn lemma_mb2_tags_shape(
    ds: Seq<MemDesc>,
    fb: Option<FbInfo>,
    ms: Seq<ModuleInfo>,
    names: Seq<Seq<u8>>,
)
    ensures
        ({
            let t = mb2_tags(ds, fb, ms, names);
            &&& 32 <= t.len() <= MB2_INFO_SIZE
            &&& t.len() % 8 == 0
            &&& t.subrange(t.len() - 8, t.len() as int) == bytes32(MB2_TAG_TYPE_END) + bytes32(8)
        }),
{
    let a0 = pad8(zeros(8) + mb2_mmap_tag(ds));
    lemma_mb2_tag_lens(ds, arbitrary(), seq![], arbitrary());
    lemma_pad8_end_room(zeros(8) + mb2_mmap_tag(ds));
    lemma_mb2_add_modules_len(a0, ms, names, 0);
    let a1 = mb2_add_modules(a0, ms, names, 0);
    match fb {
        Some(f) => {
            if a1.len() + MB2_FB_TAG_SIZE + 8 <= MB2_INFO_SIZE {
                lemma_mb2_tag_lens(ds, arbitrary(), seq![], f);
                lemma_pad8_end_room(a1 + mb2_fb_tag(f));
            } else {
                lemma_pad8_end_room(a1);
            }
        },
        None => {},
    }
    let a2 = mb2_add_fb(a1, fb);
    let t = mb2_add_end(a2);
    assert(t.subrange(t.len() - 8, t.len() as int) =~= bytes32(MB2_TAG_TYPE_END) + bytes32(8));
}

/// A tag followed by the zeros that bring it to a whole number of 8-byte
/// units.
pub open spec fn padded(tag: Seq<u8>) -> Seq<u8> {
    tag + zeros(align8(tag.len() as int) - tag.len())
}

/// The module tags of the modules `i .. j`, in the order the modules are
/// given, each padded.
pub open spec fn module_tags(ms: Seq<ModuleInfo>, names: Seq<Seq<u8>>, i: int, j: int) -> Seq<u8>
    decreases j - i,
{
    if i >= j {
        seq![]
    } else {
        padded(mb2_module_tag(ms[i], names[i])) + module_tags(ms, names, i + 1, j)
    }
}

proof fn lemma_pad8_after_aligned(acc: Seq<u8>, tag: Seq<u8>)
    requires
        acc.len() % 8 == 0,
    ensures
        pad8(acc + tag) == acc + padded(tag),
{
    let a = acc.len() as int;
    let t = tag.len() as int;
    assert(align8(a + t) - (a + t) == align8(t) - t) by (nonlinear_arith)
        requires a % 8 == 0, a >= 0, t >= 0;
    lemma_align8(a + t);
    lemma_align8(t);
    assert(pad8(acc + tag) =~= acc + padded(tag));
}

/// The module tags from the `i`-th module on, as built, are those of the
/// modules `i .. j` in order, `j` being where the first that does not fit is.
proof fn lemma_add_modules_in_order(acc: Seq<u8>, ms: Seq<ModuleInfo>, names: Seq<Seq<u8>>, i: int) -> (j: int)
    requires
        acc.len() % 8 == 0,
        0 <= i <= ms.len(),
    ensures
        i <= j <= ms.len(),
        mb2_add_modules(acc, ms, names, i) == acc + module_tags(ms, names, i, j),
        j < ms.len() ==> acc.len() + module_tags(ms, names, i, j).len() + mb2_module_tag(ms[j], names[j]).len()
            + 8 > MB2_INFO_SIZE,
    decreases ms.len() - i,
{
    if i == ms.len() {
        assert(acc + module_tags(ms, names, i, i) =~= acc);
        i
    } else {
        let tag = mb2_module_tag(ms[i], names[i]);
        if acc.len() + tag.len() + 8 > MB2_INFO_SIZE {
            assert(acc + module_tags(ms, names, i, i) =~= acc);
            i
        } else {
            lemma_pad8_after_aligned(acc, tag);
            lemma_align8((acc.len() + tag.len()) as int);
            let next = acc + padded(tag);
            let j = lemma_add_modules_in_order(next, ms, names, i + 1);
            assert(module_tags(ms, names, i, j) == padded(tag) + module_tags(ms, names, i + 1, j));
            assert(next + module_tags(ms, names, i + 1, j) =~= acc + module_tags(ms, names, i, j));
            j
        }
    }
}

/// The module tags of the Multiboot2 information follow the memory map tag
/// and describe the modules in the order they are given: for some `j`, they
/// are exactly the tags of the first `j` modules, in order — the `k`-th tag
/// giving the `k`-th module's start, end and name — and the module after
/// them is the first that would not leave room for the terminating tag.
pub proof fn lemma_mb2_modules_in_order(
    ds: Seq<MemDesc>,
    fb: Option<FbInfo>,
    ms: Seq<ModuleInfo>,
    names: Seq<Seq<u8>>,
)
    ensures
        exists|j: int|
            #![trigger module_tags(ms, names, 0, j)]
            {
                let a0 = pad8(zeros(8) + mb2_mmap_tag(ds)).len() as int;
                let mt = module_tags(ms, names, 0, j);
                &&& 0 <= j <= ms.len()
                &&& mb2_image(ds, fb, ms, names).subrange(a0, a0 + mt.len()) == mt
                &&& j < ms.len() ==> a0 + mt.len() + mb2_module_tag(ms[j], names[j]).len() + 8
                    > MB2_INFO_SIZE
            },
{
    let a0s = pad8(zeros(8) + mb2_mmap_tag(ds));
    let a0 = a0s.len() as int;
    lemma_mb2_tag_lens(ds, arbitrary(), seq![], arbitrary());
    lemma_align8((8 + mb2_mmap_tag(ds).len()) as int);
    let j = lemma_add_modules_in_order(a0s, ms, names, 0);
    let mt = module_tags(ms, names, 0, j);
    let a1 = mb2_add_modules(a0s, ms, names, 0);
    lemma_mb2_tags_shape(ds, fb, ms, names);
    let a2 = mb2_add_fb(a1, fb);
    let t = mb2_add_end(a2);
    assert(a2.subrange(0, a1.len() as int) =~= a1);
    assert(t.subrange(0, a1.len() as int) =~= a1);
    assert(t.subrange(a0, a0 + mt.len()) =~= mt);
    let img = mb2_image(ds, fb, ms, names);
    assert(a0 >= 8);
    assert(img.subrange(a0, a0 + mt.len()) =~= t.subrange(a0, a0 + mt.len()));
}

/// What a module tag says: its type and size, then the module's start and
/// end (as 32-bit addresses), then its name and a NUL.
pub proof fn lemma_mb2_module_tag_fields(m: ModuleInfo, name: Seq<u8>)
    requires
        name.len() <= MB2_INFO_SIZE,
    ensures
        ({
            let tag = mb2_module_tag(m, name);
            &&& crate::le::le32(tag, 0) == MB2_TAG_TYPE_MODULE
            &&& crate::le::le32(tag, 4) == 17 + name.len()
            &&& crate::le::le32(tag, 8) == m.phys_start as u32
            &&& crate::le::le32(tag, 12) == module_end32(m)
            &&& tag.subrange(16, 16 + name.len() as int) == name
            &&& tag[16 + name.len() as int] == 0
            &&& tag.len() == 17 + name.len()
        }),
{
    reveal(mb2_module_tag);
    let tag = mb2_module_tag(m, name);
    let h0 = bytes32(MB2_TAG_TYPE_MODULE);
    let h1 = bytes32((17 + name.len()) as u32);
    let h2 = bytes32(m.phys_start as u32);
    let h3 = bytes32(module_end32(m));
    crate::le::lemma_le32_bytes32(MB2_TAG_TYPE_MODULE);
    crate::le::lemma_le32_bytes32((17 + name.len()) as u32);
    crate::le::lemma_le32_bytes32(m.phys_start as u32);
    crate::le::lemma_le32_bytes32(module_end32(m));
    assert(tag[0] == h0[0] && tag[1] == h0[1] && tag[2] == h0[2] && tag[3] == h0[3]);
    assert(tag[4] == h1[0] && tag[5] == h1[1] && tag[6] == h1[2] && tag[7] == h1[3]);
    assert(tag[8] == h2[0] && tag[9] == h2[1] && tag[10] == h2[2] && tag[11] == h2[3]);
    assert(tag[12] == h3[0] && tag[13] == h3[1] && tag[14] == h3[2] && tag[15] == h3[3]);
    assert(tag.subrange(16, 16 + name.len() as int) =~= name);
}

/// The Multiboot2 information is well formed, whatever goes into it: the
/// total size its header records is the size of the tags it heads, which fit
/// the buffer, are a whole number of 8-byte units, and always end with the
/// terminating tag. Tags that would leave no room for it are left out.
pub proof fn lemma_mb2_total_size(
    ds: Seq<MemDesc>,
    fb: Option<FbInfo>,
    ms: Seq<ModuleInfo>,
    names: Seq<Seq<u8>>,
)
    ensures
        ({
            let t = mb2_tags(ds, fb, ms, names);
            let img = mb2_image(ds, fb, ms, names);
            &&& img.len() == MB2_INFO_SIZE
            &&& crate::le::le32(img, 0) == t.len()
            &&& 32 <= t.len() <= MB2_INFO_SIZE
            &&& t.len() % 8 == 0
            &&& img.subrange(t.len() - 8, t.len() as int) == bytes32(MB2_TAG_TYPE_END) + bytes32(8)
        }),
{
    lemma_mb2_tags_shape(ds, fb, ms, names);
    lemma_mb2_tags_start_with_zeros(ds, fb, ms, names);
    let t = mb2_tags(ds, fb, ms, names);
    let img = mb2_image(ds, fb, ms, names);
    let h = bytes32(t.len() as u32);
    crate::le::lemma_le32_bytes32(t.len() as u32);
    assert(img[0] == h[0] && img[1] == h[1] && img[2] == h[2] && img[3] == h[3]);
    assert(img.subrange(t.len() - 8, t.len() as int) =~= t.subrange(t.len() - 8, t.len() as int));
}

// ---------------------------------------------------------------------------
// Multiboot1.
// ---------------------------------------------------------------------------

pub const MB_INFO_MEMORY: u32 = 0x0000_0001;
pub const MB_INFO_MODS: u32 = 0x0000_0008;
pub const MB_INFO_MEM_MAP: u32 = 0x0000_0040;

/// Entries the Multiboot1 memory map buffer holds.
pub const MB1_MAX_MMAP: usize = 256;
/// Bytes in one Multiboot1 memory map entry, its `size` field included.
pub const MB1_MMAP_ENTRY_SIZE: usize = 24;
/// Modules the Multiboot1 module list holds.
pub const MAX_MODULES: usize = 32;
/// Bytes in the Multiboot1 information structure.
pub const MB1_INFO_SIZE: usize = 52;

/// The Multiboot1 structures, as bytes: the information structure, the
/// memory map buffer, and the module list.
pub struct Mb1Info {
    pub info: Vec<u8>,
    pub mmap: Vec<u8>,
    pub mods: Vec<u8>,
}

/// One memory map entry: the size of the rest (20), base, length, type.
pub open spec fn mb1_mmap_entry(d: MemDesc) -> Seq<u8> {
    bytes32(20) + bytes64(d.phys_start) + bytes64(region_len(d)) + bytes32(mb_memory_type(d.ty))
}

pub open spec fn mb1_mmap_entries(ds: Seq<MemDesc>) -> Seq<u8>
    decreases ds.len(),
{
    if ds.len() == 0 {
        seq![]
    } else {
        mb1_mmap_entries(ds.drop_last()) + mb1_mmap_entry(ds.last())
    }
}

/// How many descriptors the Multiboot1 map takes.
pub open spec fn mb1_mmap_count(n: int) -> int {
    if n <= MB1_MAX_MMAP { n } else { MB1_MAX_MMAP as int }
}

/// Available memory in KiB, below and above 1 MiB, from the descriptors in
/// order. Memory above 1 MiB counts from the region starting exactly at
/// 1 MiB, and from later regions once some has been counted.
pub open spec fn mem_totals(ds: Seq<MemDesc>) -> (int, int)
    decreases ds.len(),
{
    if ds.len() == 0 {
        (0, 0)
    } else {
        let (lo, up) = mem_totals(ds.drop_last());
        let d = ds.last();
        let kib = region_len(d) / 1024;
        if mb_memory_type(d.ty) != MB_MEMORY_AVAILABLE {
            (lo, up)
        } else if d.phys_start < 0x10_0000 {
            (lo + kib, up)
        } else if d.phys_start == 0x10_0000 || (d.phys_start > 0x10_0000 && up > 0) {
            (lo, up + kib)
        } else {
            (lo, up)
        }
    }
}

/// How each region of the memory map counts towards the memory totals: a
/// region that is not available counts for nothing; an available one below
/// 1 MiB counts towards the lower memory; the available one at 1 MiB starts
/// the upper memory, and once that has begun every later available region
/// above 1 MiB counts towards it, whether or not it adjoins what was counted
/// before. An available region above 1 MiB met before any counted upper
/// memory counts for nothing.
pub proof fn lemma_mem_totals_step(ds: Seq<MemDesc>, d: MemDesc)
    ensures
        ({
            let (lo, up) = mem_totals(ds);
            let (lo2, up2) = mem_totals(ds.push(d));
            let kib = d.page_count * 4096 % 0x1_0000_0000_0000_0000 / 1024;
            let avail = mb_memory_type(d.ty) == MB_MEMORY_AVAILABLE;
            &&& !avail ==> lo2 == lo && up2 == up
            &&& avail && d.phys_start < 0x10_0000 ==> lo2 == lo + kib && up2 == up
            &&& avail && d.phys_start == 0x10_0000 ==> lo2 == lo && up2 == up + kib
            &&& avail && d.phys_start > 0x10_0000 && up > 0 ==> lo2 == lo && up2 == up + kib
            &&& avail && d.phys_start > 0x10_0000 && up == 0 ==> lo2 == lo && up2 == 0
        }),
{
    assert(ds.push(d).drop_last() =~= ds);
    assert(region_len(d) == d.page_count * 4096 % 0x1_0000_0000_0000_0000);
}

/// One module entry: start, end, name, reserved.
pub open spec fn mb1_module(m: ModuleInfo) -> Seq<u8> {
    bytes32(m.phys_start as u32) + bytes32(module_end32(m)) + bytes32(m.name_ptr as u32) + bytes32(0)
}

pub open spec fn mb1_modules(ms: Seq<ModuleInfo>) -> Seq<u8>
    decreases ms.len(),
{
    if ms.len() == 0 {
        seq![]
    } else {
        mb1_modules(ms.drop_last()) + mb1_module(ms.last())
    }
}

pub open spec fn mb1_mod_count(n: int) -> int {
    if n <= MAX_MODULES { n } else { MAX_MODULES as int }
}

/// The information structure: flags, memory below and above 1 MiB (the
/// lower figure capped at 640 KiB), no boot device or command line, the
/// module list, no symbols, and the memory map.
pub open spec fn mb1_info_bytes(ds: Seq<MemDesc>, ms: Seq<ModuleInfo>, mmap_addr: u32, mods_addr: u32) -> Seq<u8> {
    let k = mb1_mmap_count(ds.len() as int);
    let (lo, up) = mem_totals(ds.take(k));
    let lower = if lo > 640 { 640 } else { lo };
    let c = mb1_mod_count(ms.len() as int);
    let flags = if c > 0 {
        MB_INFO_MEMORY | MB_INFO_MEM_MAP | MB_INFO_MODS
    } else {
        MB_INFO_MEMORY | MB_INFO_MEM_MAP
    };
    bytes32(flags) + bytes32(lower as u32) + bytes32(up as u32) + bytes32(0) + bytes32(0) + bytes32(
        c as u32,
    ) + bytes32(if c > 0 { mods_addr } else { 0 }) + zeros(16) + bytes32((k * 24) as u32) + bytes32(
        mmap_addr,
    )
}

/// The memory map buffer: the entries, then zeros.
pub open spec fn mb1_mmap_bytes(ds: Seq<MemDesc>) -> Seq<u8> {
    let k = mb1_mmap_count(ds.len() as int);
    mb1_mmap_entries(ds.take(k)) + zeros(MB1_MAX_MMAP * MB1_MMAP_ENTRY_SIZE - 24 * k)
}

/// The module list: an entry for each of the first 32 modules.
pub open spec fn mb1_mods_bytes(ms: Seq<ModuleInfo>) -> Seq<u8> {
    mb1_modules(ms.take(mb1_mod_count(ms.len() as int)))
}

proof fn lemma_mb1_entries_len(ds: Seq<MemDesc>)
    ensures
        mb1_mmap_entries(ds).len() == 24 * ds.len(),
    decreases ds.len(),
{
    if ds.len() > 0 {
        lemma_mb1_entries_len(ds.drop_last());
    }
}

proof fn lemma_mem_totals_bound(ds: Seq<MemDesc>)
    ensures
        0 <= mem_totals(ds).0 <= ds.len() * 0x40_0000_0000_0000,
        0 <= mem_totals(ds).1 <= ds.len() * 0x40_0000_0000_0000,
    decreases ds.len(),
{
    if ds.len() > 0 {
        lemma_mem_totals_bound(ds.drop_last());
        let d = ds.last();
        assert(region_len(d) / 1024 <= 0x40_0000_0000_0000);
    }
}

/// Build the Multiboot1 boot information from the final memory map and the
/// loaded modules. `mmap_addr` and `mods_addr` are where the memory map and
/// module list buffers are.
///
/// As for Multiboot2, only bytes are pushed onto the three (empty) vectors
/// of `r`, so vectors given room for [`MB1_INFO_SIZE`], 256 entries and 32
/// modules beforehand are never reallocated.
pub fn build_mb1_info(r: &mut Mb1Info, memory_map: &[MemDesc], modules: &[ModuleInfo], mmap_addr: u32, mods_addr: u32)
    requires
        old(r).info@.len() == 0,
        old(r).mmap@.len() == 0,
        old(r).mods@.len() == 0,
    ensures
        final(r).info@ == mb1_info_bytes(memory_map@, modules@, mmap_addr, mods_addr),
        final(r).mmap@ == mb1_mmap_bytes(memory_map@),
        final(r).mods@ == mb1_mods_bytes(modules@),
{
    let n = memory_map.len();
    let k = if n <= MB1_MAX_MMAP { n } else { MB1_MAX_MMAP };
    let mmap = &mut r.mmap;
    let mut lo: u64 = 0;
    let mut up: u64 = 0;
    let mut i: usize = 0;
    while i < k
        invariant
            k <= n == memory_map@.len(),
            k <= MB1_MAX_MMAP,
            i <= k,
            mmap@ == mb1_mmap_entries(memory_map@.take(i as int)),
            (lo as int, up as int) == mem_totals(memory_map@.take(i as int)),
        decreases k - i,
    {
        let d = memory_map[i];
        let ghost before = mmap@;
        assert(memory_map@.take(i + 1).drop_last() =~= memory_map@.take(i as int));
        assert(memory_map@.take(i + 1).last() == d);
        proof { lemma_mem_totals_bound(memory_map@.take(i as int)); }
        let length = region_len_exec(&d);
        let ty = efi_memtype_to_mb(d.ty);
        push_u32(mmap, 20);
        push_u64(mmap, d.phys_start);
        push_u64(mmap, length);
        push_u32(mmap, ty);
        assert(mmap@ =~= before + mb1_mmap_entry(d));
        if ty == MB_MEMORY_AVAILABLE {
            if d.phys_start < 0x10_0000 {
                lo = lo + length / 1024;
            } else if d.phys_start == 0x10_0000 || (d.phys_start > 0x10_0000 && up > 0) {
                up = up + length / 1024;
            }
        }
        i = i + 1;
    }
    proof { lemma_mb1_entries_len(memory_map@.take(k as int)); }
    push_zeros(mmap, MB1_MAX_MMAP * MB1_MMAP_ENTRY_SIZE - 24 * k);
    if lo > 640 {
        lo = 640;
    }

    let c = if modules.len() <= MAX_MODULES { modules.len() } else { MAX_MODULES };
    let mods = &mut r.mods;
    let mut j: usize = 0;
    while j < c
        invariant
            c <= modules@.len(),
            j <= c,
            mods@ == mb1_modules(modules@.take(j as int)),
        decreases c - j,
    {
        let m = &modules[j];
        let ghost before = mods@;
        push_u32(mods, m.phys_start as u32);
        push_u32(mods, module_end32_exec(m));
        push_u32(mods, m.name_ptr as u32);
        push_u32(mods, 0);
        assert(modules@.take(j + 1).drop_last() =~= modules@.take(j as int));
        assert(mods@ =~= before + mb1_module(*m));
        j = j + 1;
    }

    let flags = if c > 0 {
        MB_INFO_MEMORY | MB_INFO_MEM_MAP | MB_INFO_MODS
    } else {
        MB_INFO_MEMORY | MB_INFO_MEM_MAP
    };
    let info = &mut r.info;
    push_u32(info, flags);
    push_u32(info, lo as u32);
    push_u32(info, up as u32);
    push_u32(info, 0);
    push_u32(info, 0);
    push_u32(info, c as u32);
    push_u32(info, if c > 0 { mods_addr } else { 0 });
    push_zeros(info, 16);
    push_u32(info, (k * MB1_MMAP_ENTRY_SIZE) as u32);
    push_u32(info, mmap_addr);
}

/// The Multiboot1 structures have their fixed sizes, record at most 256
/// memory regions and 32 modules, and never claim more than 640 KiB of
/// memory below 1 MiB.
pub proof fn lemma_mb1_shape(ds: Seq<MemDesc>, ms: Seq<ModuleInfo>, mmap_addr: u32, mods_addr: u32)
    ensures
        ({
            let info = mb1_info_bytes(ds, ms, mmap_addr, mods_addr);
            &&& info.len() == MB1_INFO_SIZE
            &&& crate::le::le32(info, 4) <= 640
            &&& crate::le::le32(info, 20) <= MAX_MODULES
            &&& crate::le::le32(info, 44) == 24 * mb1_mmap_count(ds.len() as int)
            &&& crate::le::le32(info, 44) <= MB1_MAX_MMAP * MB1_MMAP_ENTRY_SIZE
            &&& mb1_mmap_bytes(ds).len() == MB1_MAX_MMAP * MB1_MMAP_ENTRY_SIZE
            &&& mb1_mods_bytes(ms).len() == 16 * mb1_mod_count(ms.len() as int)
        }),
{
    let k = mb1_mmap_count(ds.len() as int);
    let (lo, up) = mem_totals(ds.take(k));
    lemma_mem_totals_bound(ds.take(k));
    let lower = if lo > 640 { 640 } else { lo };
    let c = mb1_mod_count(ms.len() as int);
    let info = mb1_info_bytes(ds, ms, mmap_addr, mods_addr);
    crate::le::lemma_le32_bytes32(lower as u32);
    crate::le::lemma_le32_bytes32(c as u32);
    crate::le::lemma_le32_bytes32((k * 24) as u32);
    let b1 = bytes32(lower as u32);
    let b5 = bytes32(c as u32);
    let b11 = bytes32((k * 24) as u32);
    assert(info[4] == b1[0] && info[5] == b1[1] && info[6] == b1[2] && info[7] == b1[3]);
    assert(info[20] == b5[0] && info[21] == b5[1] && info[22] == b5[2] && info[23] == b5[3]);
    assert(info[44] == b11[0] && info[45] == b11[1] && info[46] == b11[2] && info[47] == b11[3]);
    lemma_mb1_entries_len(ds.take(k));
    lemma_mb1_modules_len(ms.take(c));
}

proof fn lemma_mb1_modules_len(ms: Seq<ModuleInfo>)
    ensures
        mb1_modules(ms).len() == 16 * ms.len(),
    decreases ms.len(),
{
    if ms.len() > 0 {
        lemma_mb1_modules_len(ms.drop_last());
    }
}

} // verus!
