use bang::linux::{
    boot_params, check_bzimage, command_line, fixed_pages, handover_entry, low_pages,
    place_kernel, put_u32, reloc_request, u16_at, u32_at, u64_at, u8_at, HandoverError,
};

fn put16(b: &mut [u8], o: usize, v: u16) {
    b[o..o + 2].copy_from_slice(&v.to_le_bytes());
}
fn put32(b: &mut [u8], o: usize, v: u32) {
    b[o..o + 4].copy_from_slice(&v.to_le_bytes());
}

fn bzimage() -> Vec<u8> {
    let mut b = vec![0u8; 0x2000];
    for (i, x) in b.iter_mut().enumerate() {
        *x = (i % 251) as u8;
    }
    b[0x1F1] = 0;
    b[0x201] = 0x62;
    put16(&mut b, 0x1FE, 0xAA55);
    put32(&mut b, 0x202, 0x5372_6448);
    put16(&mut b, 0x206, 0x020F);
    b[0x210] = 0;
    b[0x211] = 0x80;
    put32(&mut b, 0x230, 0x20_0000);
    b[0x234] = 1;
    put16(&mut b, 0x236, 0x0008 | 0x0001);
    put32(&mut b, 0x238, 10);
    b[0x258..0x260].copy_from_slice(&0x100_0000u64.to_le_bytes());
    put32(&mut b, 0x260, 0x3000);
    put32(&mut b, 0x264, 0x190);
    b
}

#[test]
fn little_endian_reads_and_writes() {
    let mut b = vec![0u8; 16];
    put_u32(&mut b, 3, 0xDEAD_BEEF);
    assert_eq!(u32_at(&b, 3), 0xDEAD_BEEF);
    assert_eq!(&b[3..7], &[0xEF, 0xBE, 0xAD, 0xDE]);
    assert_eq!(b[2], 0);
    assert_eq!(b[7], 0);
    assert_eq!(u8_at(&b, 3), 0xEF);
    assert_eq!(u16_at(&b, 3), 0xBEEF);
    put_u32(&mut b, 8, 0x0102_0304);
    assert_eq!(u64_at(&b, 3), 0x0203_0400_DEAD_BEEF);
    assert_eq!(u64_at(&[1, 2, 3, 4, 5, 6, 7, 8], 0), 0x0807_0605_0403_0201);
}

#[test]
fn a_bzimage_header_is_read() {
    let b = bzimage();
    let h = check_bzimage(&b).unwrap();
    assert_eq!(h.version, 0x020F);
    assert_eq!(h.handover_offset, 0x190);
    assert_eq!(h.setup_sects, 4);
    assert_eq!(h.kernel_offset, 5 * 512);
    assert_eq!(h.kernel_len, 0x2000 - 5 * 512);
    assert_eq!(h.init_size, 0x3000);
    assert_eq!(h.alignment, 0x20_0000);
    assert!(h.relocatable);
    assert_eq!(h.pref_address, 0x100_0000);
    assert_eq!(h.need, 0x3000);
    assert_eq!(h.header_end, 0x202 + 0x62);
    assert_eq!(h.cmdline_size, 10);
}

#[test]
fn need_is_the_larger_of_init_size_and_the_file() {
    let mut b = bzimage();
    put32(&mut b, 0x260, 0x10);
    b[0x1F1] = 2;
    let h = check_bzimage(&b).unwrap();
    assert_eq!(h.setup_sects, 2);
    assert_eq!(h.kernel_offset, 3 * 512);
    assert_eq!(h.need, 0x2000 - 3 * 512);
}

#[test]
fn bzimage_errors() {
    assert_eq!(check_bzimage(&vec![0u8; 0xFFF]), Err(HandoverError::TooSmall));
    let mut b = bzimage();
    put16(&mut b, 0x1FE, 0xAA56);
    assert_eq!(check_bzimage(&b), Err(HandoverError::NotBzImage));
    let mut b = bzimage();
    put32(&mut b, 0x202, 0x5372_6449);
    assert_eq!(check_bzimage(&b), Err(HandoverError::NotBzImage));
    let mut b = bzimage();
    put16(&mut b, 0x206, 0x020A);
    assert_eq!(check_bzimage(&b), Err(HandoverError::ProtocolTooOld(0x020A)));
    let mut b = bzimage();
    put16(&mut b, 0x236, 0x0007);
    assert_eq!(check_bzimage(&b), Err(HandoverError::NoHandover64));
    let mut b = bzimage();
    b[0x1F1] = 200;
    assert_eq!(check_bzimage(&b), Err(HandoverError::SetupPastEnd(200)));
    let mut b = bzimage();
    b[0x1F1] = 15;
    assert_eq!(check_bzimage(&b), Err(HandoverError::SetupPastEnd(15)));
}

#[test]
fn memory_for_the_kernel() {
    assert_eq!(low_pages(0), 1);
    assert_eq!(low_pages(1), 1);
    assert_eq!(low_pages(4096), 1);
    assert_eq!(low_pages(4097), 2);
    let h = check_bzimage(&bzimage()).unwrap();
    assert_eq!(reloc_request(&h), 0x3000 + 0x20_0000);
    assert_eq!(fixed_pages(&h), 3);
    assert_eq!(place_kernel(&h, 0x123_4000), 0x140_0000);
    assert_eq!(place_kernel(&h, 0x140_0000), 0x140_0000);
    let mut b = bzimage();
    put32(&mut b, 0x230, 1);
    let h1 = check_bzimage(&b).unwrap();
    assert_eq!(place_kernel(&h1, 0x123_4567), 0x123_4567);
    assert_eq!(handover_entry(&h, 0x140_0000), Some(0x140_0000 + 0x190 + 512));
    assert_eq!(handover_entry(&h, u64::MAX - 100), None);
}

#[test]
fn the_command_line_is_cut_to_the_limit() {
    let h = check_bzimage(&bzimage()).unwrap();
    assert_eq!(command_line("root=/dev/sda2 ro", &h), b"root=/dev/\0".to_vec());
    assert_eq!(command_line("quiet", &h), b"quiet\0".to_vec());
    assert_eq!(command_line("", &h), b"\0".to_vec());
    let mut b = bzimage();
    put32(&mut b, 0x238, 0);
    let unlimited = check_bzimage(&b).unwrap();
    assert_eq!(command_line("root=/dev/sda2 ro", &unlimited), b"root=/dev/sda2 ro\0".to_vec());
}

#[test]
fn the_command_line_is_never_cut_inside_a_character() {
    let mut b = bzimage();
    put32(&mut b, 0x238, 2);
    let h = check_bzimage(&b).unwrap();
    // "aé" is 61 C3 A9: two bytes would split the é, so only "a" is kept.
    assert_eq!(command_line("a\u{e9}", &h), b"a\0".to_vec());
    assert_eq!(command_line("\u{e9}x", &h), vec![0xC3, 0xA9, 0]);
    assert_eq!(command_line("\u{20ac}", &h), b"\0".to_vec());
    put32(&mut b, 0x238, 4);
    let h = check_bzimage(&b).unwrap();
    assert_eq!(command_line("ab\u{1F600}", &h), b"ab\0".to_vec());
    assert_eq!(command_line("\u{1F600}z", &h), vec![0xF0, 0x9F, 0x98, 0x80, 0]);
}

#[test]
fn boot_params_say_where_everything_is() {
    let img = bzimage();
    let h = check_bzimage(&img).unwrap();
    let bp = boot_params(&img, &h, 0x7000, Some((0x8000, 0x1234)), 0x140_0000);
    assert_eq!(bp.len(), 4096);
    assert!(bp[..0x1F1].iter().all(|&x| x == 0));
    assert!(bp[0x264..].iter().all(|&x| x == 0));
    assert_eq!(u32_at(&bp, 0x228), 0x7000);
    assert_eq!(u32_at(&bp, 0x218), 0x8000);
    assert_eq!(u32_at(&bp, 0x21C), 0x1234);
    assert_eq!(u32_at(&bp, 0x214), 0x140_0000);
    assert_eq!(bp[0x210], 0xFF);
    assert_eq!(bp[0x211], 0x81);
    assert_eq!(&bp[0x1F1..0x210], &img[0x1F1..0x210]);
    assert_eq!(&bp[0x220..0x228], &img[0x220..0x228]);
    assert_eq!(&bp[0x22C..0x264], &img[0x22C..0x264]);
    let bp = boot_params(&img, &h, 0x7000, None, 0x1_0140_0000);
    assert_eq!(&bp[0x218..0x220], &img[0x218..0x220]);
    assert_eq!(u32_at(&bp, 0x214), 0x140_0000);
}
