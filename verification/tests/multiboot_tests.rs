use bang::gop::FbInfo;
use bang::modules::ModuleInfo;
use bang::multiboot::{build_mb1_info, build_mb2_info, efi_memtype_to_mb, Mb1Info, MemDesc, MB2_INFO_SIZE};

fn mb2(map: &[MemDesc], fb: Option<&FbInfo>, mods: &[ModuleInfo], names: &[Vec<u8>]) -> Vec<u8> {
    let mut out = Vec::with_capacity(MB2_INFO_SIZE);
    let cap = out.capacity();
    build_mb2_info(&mut out, map, fb, mods, names);
    // Built in place: the room given beforehand was enough.
    assert_eq!(out.capacity(), cap);
    out
}

fn mb1(map: &[MemDesc], mods: &[ModuleInfo], mmap_addr: u32, mods_addr: u32) -> Mb1Info {
    let mut r = Mb1Info { info: Vec::new(), mmap: Vec::new(), mods: Vec::new() };
    build_mb1_info(&mut r, map, mods, mmap_addr, mods_addr);
    r
}

fn r32(b: &[u8], o: usize) -> u32 {
    u32::from_le_bytes(b[o..o + 4].try_into().unwrap())
}
fn r64(b: &[u8], o: usize) -> u64 {
    u64::from_le_bytes(b[o..o + 8].try_into().unwrap())
}

fn fb() -> FbInfo {
    FbInfo {
        addr: 0x8000_0000,
        pitch: 4096,
        width: 1024,
        height: 768,
        bpp: 32,
        fb_type: 1,
        red_pos: 16,
        red_size: 8,
        green_pos: 8,
        green_size: 8,
        blue_pos: 0,
        blue_size: 8,
    }
}

#[test]
fn memory_types() {
    for t in [1u32, 2, 3, 4, 7] {
        assert_eq!(efi_memtype_to_mb(t), 1);
    }
    assert_eq!(efi_memtype_to_mb(9), 3);
    assert_eq!(efi_memtype_to_mb(10), 4);
    for t in [0u32, 5, 6, 8, 11, 12, 13, 0x8000_0000] {
        assert_eq!(efi_memtype_to_mb(t), 2);
    }
}

#[test]
fn mb2_layout() {
    let map = [
        MemDesc { ty: 7, phys_start: 0, page_count: 0x9F },
        MemDesc { ty: 9, phys_start: 0x10_0000, page_count: 2 },
    ];
    let mods = [ModuleInfo { name_ptr: 0x5000, phys_start: 0x20_0000, size: 0x1234 }];
    let names = vec![b"init.elf".to_vec()];
    let f = fb();
    let b = mb2(&map, Some(&f), &mods, &names);
    assert_eq!(b.len(), MB2_INFO_SIZE);
    // Header.
    assert_eq!(r32(&b, 0), 152);
    assert_eq!(r32(&b, 4), 0);
    // Memory map tag.
    assert_eq!(r32(&b, 8), 6);
    assert_eq!(r32(&b, 12), 16 + 2 * 24);
    assert_eq!(r32(&b, 16), 24);
    assert_eq!(r32(&b, 20), 0);
    assert_eq!(r64(&b, 24), 0);
    assert_eq!(r64(&b, 32), 0x9F * 4096);
    assert_eq!(r32(&b, 40), 1);
    assert_eq!(r32(&b, 44), 0);
    assert_eq!(r64(&b, 48), 0x10_0000);
    assert_eq!(r64(&b, 56), 2 * 4096);
    assert_eq!(r32(&b, 64), 3);
    // Module tag at 72.
    assert_eq!(r32(&b, 72), 3);
    assert_eq!(r32(&b, 76), 25);
    assert_eq!(r32(&b, 80), 0x20_0000);
    assert_eq!(r32(&b, 84), 0x20_1234);
    assert_eq!(&b[88..96], b"init.elf");
    assert_eq!(b[96], 0);
    // Framebuffer tag at 104 (97 rounded up).
    assert_eq!(&b[97..104], &[0u8; 7]);
    assert_eq!(r32(&b, 104), 8);
    assert_eq!(r32(&b, 108), 37);
    assert_eq!(r64(&b, 112), 0x8000_0000);
    assert_eq!(r32(&b, 120), 4096);
    assert_eq!(r32(&b, 124), 1024);
    assert_eq!(r32(&b, 128), 768);
    assert_eq!(&b[132..141], &[32, 1, 0, 16, 8, 8, 8, 0, 8]);
    // End tag at 144.
    assert_eq!(r32(&b, 144), 0);
    assert_eq!(r32(&b, 148), 8);
    assert!(b[152..].iter().all(|&x| x == 0));
}

#[test]
fn mb2_without_framebuffer_or_modules() {
    let b = mb2(&[], None, &[], &[]);
    assert_eq!(r32(&b, 0), 32);
    assert_eq!(r32(&b, 8), 6);
    assert_eq!(r32(&b, 12), 16);
    assert_eq!(r32(&b, 24), 0);
    assert_eq!(r32(&b, 28), 8);
}

#[test]
fn mb2_full_memory_map_leaves_room_only_for_the_end_tag() {
    let map: Vec<MemDesc> = (0..400u64).map(|i| MemDesc { ty: 7, phys_start: i << 20, page_count: 1 }).collect();
    let mods = [ModuleInfo { name_ptr: 0, phys_start: 0, size: 0 }];
    let names = vec![Vec::new()];
    let f = fb();
    let b = mb2(&map, Some(&f), &mods, &names);
    assert_eq!(r32(&b, 12), 16 + 340 * 24);
    assert_eq!(r32(&b, 0), 8192);
    assert_eq!(r32(&b, 8184), 0);
    assert_eq!(r32(&b, 8188), 8);
    assert_eq!(r64(&b, 24 + 339 * 24), 339 << 20);
}

#[test]
fn mb2_total_size_is_aligned_and_ends_with_end_tag() {
    for n in [0usize, 1, 5, 100, 339, 340, 341] {
        let map: Vec<MemDesc> = (0..n as u64).map(|i| MemDesc { ty: 2, phys_start: i, page_count: i }).collect();
        let mods: Vec<ModuleInfo> = (0..3u64).map(|i| ModuleInfo { name_ptr: 0, phys_start: i << 12, size: 10 }).collect();
        let names = vec![b"a".to_vec(), b"bbbbbbbbbbbb".to_vec(), b"c".to_vec()];
        let b = mb2(&map, None, &mods, &names);
        let total = r32(&b, 0) as usize;
        assert!(total <= MB2_INFO_SIZE && total % 8 == 0 && total >= 32);
        assert_eq!(r32(&b, total - 8), 0);
        assert_eq!(r32(&b, total - 4), 8);
    }
}

#[test]
fn a_module_that_would_crowd_out_the_end_tag_is_left_out() {
    // 339 regions: the memory map ends at 8 + 16 + 339 * 24 = 8160. A module
    // tag for a 15-byte name is 32 bytes and would end exactly at 8192,
    // leaving no room for the terminating tag.
    let map: Vec<MemDesc> = (0..339u64).map(|i| MemDesc { ty: 7, phys_start: i << 20, page_count: 1 }).collect();
    let mods = [ModuleInfo { name_ptr: 0, phys_start: 0x40_0000, size: 0x100 }];
    let names = vec![b"fifteen_bytes__".to_vec()];
    let b = mb2(&map, None, &mods, &names);
    assert_eq!(r32(&b, 0), 8168);
    assert_eq!(r32(&b, 8160), 0);
    assert_eq!(r32(&b, 8164), 8);
    // With one region fewer, the module fits, and so does the end tag.
    let b = mb2(&map[..338], None, &mods, &names);
    assert_eq!(r32(&b, 0), 8176);
    assert_eq!(r32(&b, 8136), 3);
    assert_eq!(r32(&b, 8140), 32);
    assert_eq!(r32(&b, 8168), 0);
    assert_eq!(r32(&b, 8172), 8);
}

#[test]
fn a_framebuffer_that_would_crowd_out_the_end_tag_is_left_out() {
    // 338 regions end at 8136; the framebuffer tag pads to 40 bytes and
    // would end at 8176, which leaves room; with 339 regions it would not.
    let map: Vec<MemDesc> = (0..339u64).map(|i| MemDesc { ty: 7, phys_start: i << 20, page_count: 1 }).collect();
    let f = fb();
    let b = mb2(&map, Some(&f), &[], &[]);
    assert_eq!(r32(&b, 0), 8168);
    assert_eq!(r32(&b, 8160), 0);
    assert_eq!(r32(&b, 8164), 8);
    let b = mb2(&map[..338], Some(&f), &[], &[]);
    assert_eq!(r32(&b, 0), 8184);
    assert_eq!(r32(&b, 8136), 8);
    assert_eq!(r32(&b, 8176), 0);
    assert_eq!(r32(&b, 8180), 8);
}

#[test]
fn module_end_wraps() {
    let mods = [ModuleInfo { name_ptr: 0x1_0000_0010, phys_start: 0xFFFF_FFFF_FFFF_F000, size: 0x2000 }];
    let r = mb1(&[], &mods, 0x9000, 0xA000);
    assert_eq!(r32(&r.mods, 0), 0xFFFF_F000);
    assert_eq!(r32(&r.mods, 4), 0x1000);
    assert_eq!(r32(&r.mods, 8), 0x10);
    assert_eq!(r32(&r.mods, 12), 0);
}

#[test]
fn mb1_layout_and_memory_totals() {
    let map = [
        MemDesc { ty: 7, phys_start: 0, page_count: 0x9F },
        MemDesc { ty: 0, phys_start: 0x9F000, page_count: 0x61 },
        MemDesc { ty: 2, phys_start: 0x10_0000, page_count: 0x100 },
        MemDesc { ty: 4, phys_start: 0x20_0000, page_count: 0x200 },
        MemDesc { ty: 9, phys_start: 0x40_0000, page_count: 0x10 },
    ];
    let mods = [
        ModuleInfo { name_ptr: 0x5000, phys_start: 0x50_0000, size: 0x100 },
        ModuleInfo { name_ptr: 0x5009, phys_start: 0x60_0000, size: 0x200 },
    ];
    let r = mb1(&map, &mods, 0x9000, 0xA000);
    assert_eq!(r.info.len(), 52);
    assert_eq!(r32(&r.info, 0), 0x49);
    assert_eq!(r32(&r.info, 4), 0x9F * 4);
    assert_eq!(r32(&r.info, 8), 0x300 * 4);
    assert_eq!(r32(&r.info, 12), 0);
    assert_eq!(r32(&r.info, 16), 0);
    assert_eq!(r32(&r.info, 20), 2);
    assert_eq!(r32(&r.info, 24), 0xA000);
    assert!(r.info[28..44].iter().all(|&x| x == 0));
    assert_eq!(r32(&r.info, 44), 5 * 24);
    assert_eq!(r32(&r.info, 48), 0x9000);
    assert_eq!(r.mmap.len(), 256 * 24);
    assert_eq!(r32(&r.mmap, 0), 20);
    assert_eq!(r64(&r.mmap, 4), 0);
    assert_eq!(r64(&r.mmap, 12), 0x9F * 4096);
    assert_eq!(r32(&r.mmap, 20), 1);
    assert_eq!(r32(&r.mmap, 24 + 20), 2);
    assert_eq!(r32(&r.mmap, 4 * 24 + 20), 3);
    assert!(r.mmap[5 * 24..].iter().all(|&x| x == 0));
    assert_eq!(r.mods.len(), 32);
    assert_eq!(r32(&r.mods, 16), 0x60_0000);
    assert_eq!(r32(&r.mods, 20), 0x60_0200);
    assert_eq!(r32(&r.mods, 24), 0x5009);
}

#[test]
fn mb1_low_memory_is_capped_and_high_memory_needs_a_start() {
    let map = [
        MemDesc { ty: 7, phys_start: 0, page_count: 0x100 },
        MemDesc { ty: 7, phys_start: 0x20_0000, page_count: 0x10 },
    ];
    let r = mb1(&map, &[], 0, 0);
    assert_eq!(r32(&r.info, 4), 640);
    // Available memory above 1 MiB counts only from a region at exactly 1 MiB.
    assert_eq!(r32(&r.info, 8), 0);
    assert_eq!(r32(&r.info, 0), 0x41);
    assert_eq!(r32(&r.info, 20), 0);
    assert_eq!(r32(&r.info, 24), 0);
    assert!(r.mods.is_empty());
}

#[test]
fn mb1_keeps_at_most_256_regions_and_32_modules() {
    let map: Vec<MemDesc> = (0..300u64).map(|i| MemDesc { ty: 7, phys_start: 0x10_0000 + (i << 12), page_count: 1 }).collect();
    let mods: Vec<ModuleInfo> = (0..40u64).map(|i| ModuleInfo { name_ptr: i, phys_start: i, size: 1 }).collect();
    let r = mb1(&map, &mods, 0, 0);
    assert_eq!(r32(&r.info, 44), 256 * 24);
    assert_eq!(r32(&r.info, 8), 256 * 4);
    assert_eq!(r32(&r.info, 20), 32);
    assert_eq!(r.mods.len(), 32 * 16);
    assert_eq!(r.mmap.len(), 256 * 24);
}
