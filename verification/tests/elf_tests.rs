use bang::elf::{
    detect_multiboot_version, handoff, parse_kernel, wants_framebuffer, AllocTable, BootInfo,
    BootMode, ElfError, Handoff, KernelInfo, MB1_BOOT_MAGIC, MB2_BOOT_MAGIC,
};

fn put16(b: &mut [u8], o: usize, v: u16) {
    b[o..o + 2].copy_from_slice(&v.to_le_bytes());
}
fn put32(b: &mut [u8], o: usize, v: u32) {
    b[o..o + 4].copy_from_slice(&v.to_le_bytes());
}
fn put64(b: &mut [u8], o: usize, v: u64) {
    b[o..o + 8].copy_from_slice(&v.to_le_bytes());
}

fn mb2_header(b: &mut [u8], off: usize) {
    let magic = 0xE852_50D6u32;
    let arch = 0u32;
    let len = 16u32;
    put32(b, off, magic);
    put32(b, off + 4, arch);
    put32(b, off + 8, len);
    put32(b, off + 12, 0u32.wrapping_sub(magic.wrapping_add(arch).wrapping_add(len)));
}

fn mb1_header(b: &mut [u8], off: usize) {
    let magic = 0x1BAD_B002u32;
    let flags = 3u32;
    put32(b, off, magic);
    put32(b, off + 4, flags);
    put32(b, off + 8, 0u32.wrapping_sub(magic.wrapping_add(flags)));
}

/// An ELF32 i386 executable with the given program headers (type, offset, paddr, filesz, memsz).
fn elf32(len: usize, phdrs: &[(u32, u32, u32, u32, u32)]) -> Vec<u8> {
    let mut b = vec![0u8; len];
    b[0..4].copy_from_slice(&[0x7F, b'E', b'L', b'F']);
    b[4] = 1;
    put16(&mut b, 16, 2);
    put16(&mut b, 18, 3);
    put32(&mut b, 24, 0x0010_000C);
    put32(&mut b, 28, 52);
    put16(&mut b, 44, phdrs.len() as u16);
    for (i, &(t, off, paddr, filesz, memsz)) in phdrs.iter().enumerate() {
        let o = 52 + i * 32;
        put32(&mut b, o, t);
        put32(&mut b, o + 4, off);
        put32(&mut b, o + 12, paddr);
        put32(&mut b, o + 16, filesz);
        put32(&mut b, o + 20, memsz);
    }
    b
}

/// An ELF64 x86_64 executable with the given program headers (type, offset, paddr, filesz, memsz).
fn elf64(len: usize, phdrs: &[(u32, u64, u64, u64, u64)]) -> Vec<u8> {
    let mut b = vec![0u8; len];
    b[0..4].copy_from_slice(&[0x7F, b'E', b'L', b'F']);
    b[4] = 2;
    put16(&mut b, 16, 2);
    put16(&mut b, 18, 62);
    put64(&mut b, 24, 0xFFFF_8000_0010_0000);
    put64(&mut b, 32, 64);
    put16(&mut b, 56, phdrs.len() as u16);
    for (i, &(t, off, paddr, filesz, memsz)) in phdrs.iter().enumerate() {
        let o = 64 + i * 56;
        put32(&mut b, o, t);
        put64(&mut b, o + 8, off);
        put64(&mut b, o + 24, paddr);
        put64(&mut b, o + 32, filesz);
        put64(&mut b, o + 40, memsz);
    }
    b
}

#[test]
fn multiboot_headers_are_found() {
    let mut b = vec![0u8; 4096];
    assert_eq!(detect_multiboot_version(&b), 0);
    mb1_header(&mut b, 1028);
    assert_eq!(detect_multiboot_version(&b), 1);
    mb2_header(&mut b, 2048);
    assert_eq!(detect_multiboot_version(&b), 2);
}

#[test]
fn multiboot2_header_must_be_aligned() {
    let mut b = vec![0u8; 4096];
    mb2_header(&mut b, 2052);
    assert_eq!(detect_multiboot_version(&b), 0);
    let mut b = vec![0u8; 4096];
    mb1_header(&mut b, 1030);
    assert_eq!(detect_multiboot_version(&b), 0);
}

#[test]
fn multiboot_headers_must_lie_within_the_search() {
    let mut b = vec![0u8; 40000];
    mb2_header(&mut b, 32768);
    assert_eq!(detect_multiboot_version(&b), 0);
    let mut b = vec![0u8; 40000];
    mb2_header(&mut b, 32768 - 16);
    assert_eq!(detect_multiboot_version(&b), 2);
    let mut b = vec![0u8; 9000];
    mb1_header(&mut b, 8192 - 8);
    assert_eq!(detect_multiboot_version(&b), 0);
    mb1_header(&mut b, 8192 - 12);
    assert_eq!(detect_multiboot_version(&b), 1);
    // A file shorter than a header.
    assert_eq!(detect_multiboot_version(&[0xD6, 0x50, 0x52]), 0);
}

#[test]
fn a_bad_checksum_is_no_header() {
    let mut b = vec![0u8; 4096];
    mb2_header(&mut b, 64);
    b[64 + 12] ^= 1;
    assert_eq!(detect_multiboot_version(&b), 0);
}

#[test]
fn elf32_kernel_with_segments() {
    let mut b = elf32(0x3000, &[(1, 0x1000, 0x0010_0123, 0x800, 0x2000), (4, 0, 0, 0, 0), (1, 0x2000, 0x0020_0000, 0x1000, 0x1000)]);
    mb1_header(&mut b, 0x1000);
    let k = parse_kernel(&b).unwrap();
    assert_eq!(k.info.entry_point, 0x0010_000C);
    assert_eq!(k.info.mb_version, 1);
    assert_eq!(k.info.boot_mode, BootMode::Protected32);
    assert_eq!(k.segments.len(), 2);
    let s = k.segments[0];
    assert_eq!((s.paddr, s.memsz, s.offset, s.filesz), (0x0010_0123, 0x2000, 0x1000, 0x800));
    assert_eq!(s.page_base, 0x0010_0000);
    assert_eq!(s.pages, 3);
    let s = k.segments[1];
    assert_eq!((s.page_base, s.pages), (0x0020_0000, 1));
}

#[test]
fn boot_modes() {
    let b = elf64(0x1000, &[]);
    let k = parse_kernel(&b).unwrap();
    assert_eq!(k.info.boot_mode, BootMode::Long64);
    assert_eq!(k.info.mb_version, 0);
    assert_eq!(k.info.entry_point, 0xFFFF_8000_0010_0000);
    let mut b = elf64(0x1000, &[]);
    mb2_header(&mut b, 0x800);
    let k = parse_kernel(&b).unwrap();
    assert_eq!(k.info.boot_mode, BootMode::Protected32);
    assert_eq!(k.info.mb_version, 2);
    let b = elf32(0x1000, &[]);
    assert_eq!(parse_kernel(&b).unwrap().info.boot_mode, BootMode::Protected32);
}

#[test]
fn elf64_segment_pages() {
    let b = elf64(0x2000, &[(1, 0x1000, 0x20_0FFF, 0x10, 0x1)]);
    let k = parse_kernel(&b).unwrap();
    let s = k.segments[0];
    assert_eq!(s.page_base, 0x20_0000);
    // 0xFFF + 1 bytes end exactly at the next page.
    assert_eq!(s.pages, 1);
    assert_eq!(s.filesz, 0x10);
}

#[test]
fn elf_errors() {
    assert_eq!(parse_kernel(b"not an elf file at all").err(), Some(ElfError::NotElf));
    assert_eq!(parse_kernel(&[0x7F, b'E', b'L', b'F']).err(), Some(ElfError::NotElf));
    let mut b = elf32(0x100, &[]);
    b.truncate(40);
    assert_eq!(parse_kernel(&b).err(), Some(ElfError::Elf32HeaderTruncated));
    let mut b = elf32(0x100, &[]);
    put16(&mut b, 18, 62);
    assert_eq!(parse_kernel(&b).err(), Some(ElfError::NotI386Executable));
    let mut b = elf32(0x100, &[]);
    put16(&mut b, 16, 3);
    assert_eq!(parse_kernel(&b).err(), Some(ElfError::NotI386Executable));
    let mut b = elf64(0x100, &[]);
    b.truncate(60);
    assert_eq!(parse_kernel(&b).err(), Some(ElfError::Elf64HeaderTruncated));
    let mut b = elf64(0x100, &[]);
    put16(&mut b, 18, 3);
    assert_eq!(parse_kernel(&b).err(), Some(ElfError::NotX86_64Executable));
    let mut b = elf64(0x100, &[]);
    b[4] = 3;
    assert_eq!(parse_kernel(&b).err(), Some(ElfError::UnsupportedClass(3)));
    let mut b = elf32(0x100, &[]);
    put16(&mut b, 44, 10);
    assert_eq!(parse_kernel(&b).err(), Some(ElfError::ProgramHeaderOutsideFile));
    let b = elf32(0x100, &[(1, 0x80, 0x1000, 0x100, 0x100)]);
    assert_eq!(parse_kernel(&b).err(), Some(ElfError::SegmentOutsideFile));
    let b = elf64(0x200, &[(1, 0x100, 0x123, 0x10, u64::MAX - 0x200)]);
    assert_eq!(parse_kernel(&b).err(), Some(ElfError::SegmentTooLarge));
    // A segment of another type is not looked into.
    let b = elf32(0x100, &[(2, 0x80, 0x1000, 0x100, 0x100)]);
    assert!(parse_kernel(&b).unwrap().segments.is_empty());
}

#[test]
fn recorded_pages_are_found_again() {
    let mut t = AllocTable::new();
    assert!(!t.pages_already_allocated(0x10_0000, 1));
    t.record_allocation(0x10_0000, 4);
    assert!(t.pages_already_allocated(0x10_0000, 4));
    assert!(t.pages_already_allocated(0x10_1000, 3));
    assert!(t.pages_already_allocated(0x10_0000, 1));
    assert!(!t.pages_already_allocated(0x10_1000, 4));
    assert!(!t.pages_already_allocated(0x0F_F000, 1));
}

#[test]
fn a_segment_overlapping_an_earlier_one_gets_only_its_new_pages() {
    let b = 0x20_0000u64;
    let mut t = AllocTable::new();
    // An earlier segment took exactly the page at B.
    t.record_allocation(b, 1);
    // This one starts half way into it and runs into the next page.
    assert_eq!(t.unallocated_pages(b, 2), vec![b + 0x1000]);
    t.record_allocation(b, 2);
    assert_eq!(t.unallocated_pages(b, 2), Vec::<u64>::new());
    // Pages on both sides of what is held.
    assert_eq!(t.unallocated_pages(b - 0x2000, 5), vec![b - 0x2000, b - 0x1000, b + 0x2000]);
    assert_eq!(AllocTable::new().unallocated_pages(b, 3), vec![b, b + 0x1000, b + 0x2000]);
    // The very last page of the address space.
    assert_eq!(AllocTable::new().unallocated_pages(u64::MAX - 0xFFF, 1), vec![u64::MAX - 0xFFF]);
}

#[test]
fn a_full_table_forgets_new_allocations() {
    let mut t = AllocTable::new();
    for i in 0..32u64 {
        t.record_allocation(i * 0x1000, 1);
    }
    assert!(t.pages_already_allocated(31 * 0x1000, 1));
    t.record_allocation(0x100_0000, 1);
    assert!(!t.pages_already_allocated(0x100_0000, 1));
    assert!(t.pages_already_allocated(0, 1));
}

#[test]
fn how_each_kernel_is_entered() {
    let k = |mb: u32, mode: BootMode| KernelInfo { entry_point: 0x10_0000, mb_version: mb, boot_mode: mode };
    assert_eq!(handoff(&k(1, BootMode::Protected32)), Handoff::Trampoline { info: BootInfo::Multiboot1, magic: MB1_BOOT_MAGIC });
    assert_eq!(handoff(&k(2, BootMode::Protected32)), Handoff::Trampoline { info: BootInfo::Multiboot2, magic: MB2_BOOT_MAGIC });
    assert_eq!(handoff(&k(0, BootMode::Protected32)), Handoff::Trampoline { info: BootInfo::Multiboot2, magic: MB2_BOOT_MAGIC });
    assert_eq!(handoff(&k(2, BootMode::Long64)), Handoff::Direct { info: BootInfo::Multiboot2 });
    assert_eq!(handoff(&k(0, BootMode::Long64)), Handoff::Direct { info: BootInfo::Nothing });
    assert!(wants_framebuffer(&k(2, BootMode::Long64)));
    assert!(!wants_framebuffer(&k(1, BootMode::Protected32)));
}
