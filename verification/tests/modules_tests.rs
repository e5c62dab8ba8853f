use bang::gop::{fb_info, PixelLayout};
use bang::modules::{module_entry_wanted, module_pages, module_read_whole, NameTable, NAME_TABLE_SIZE};
use bang::ucs2::wcslen;

fn u(s: &str) -> Vec<u16> {
    s.encode_utf16().collect()
}

#[test]
fn names_are_stored_one_after_another() {
    let mut t = NameTable::new();
    let a = t.store_name(&u("init.elf\0"));
    let b = t.store_name(&u("vga.drv\0junk"));
    assert_eq!(a, 0);
    assert_eq!(b, 9);
    assert_eq!(t.name_at(a), b"init.elf".to_vec());
    assert_eq!(t.name_at(b), b"vga.drv".to_vec());
    assert_eq!(t.bytes()[8], 0);
    assert_eq!(t.bytes()[16], 0);
}

#[test]
fn non_ascii_becomes_a_question_mark() {
    let mut t = NameTable::new();
    let a = t.store_name(&u("\u{e9}t\u{e9}.drv"));
    assert_eq!(t.name_at(a), b"?t?.drv".to_vec());
}

#[test]
fn a_full_table_cuts_names_short() {
    let mut t = NameTable::new();
    let long = vec![0x41u16; 5000];
    let a = t.store_name(&long);
    assert_eq!(a, 0);
    assert_eq!(t.name_at(0).len(), NAME_TABLE_SIZE - 1);
    assert_eq!(t.bytes()[NAME_TABLE_SIZE - 1], 0);
    let b = t.store_name(&u("more"));
    assert_eq!(b, NAME_TABLE_SIZE - 1);
    assert_eq!(t.name_at(b), Vec::<u8>::new());
}

#[test]
fn the_last_byte_of_room_holds_only_the_terminator() {
    let mut t = NameTable::new();
    t.store_name(&vec![0x42u16; NAME_TABLE_SIZE - 2]);
    let b = t.store_name(&u("xyz"));
    assert_eq!(b, NAME_TABLE_SIZE - 1);
    assert_eq!(t.name_at(b), Vec::<u8>::new());
    let c = t.store_name(&u("w"));
    assert_eq!(c, NAME_TABLE_SIZE - 1);
}

#[test]
fn pages_for_a_module() {
    assert_eq!(module_pages(0), 0);
    assert_eq!(module_pages(1), 1);
    assert_eq!(module_pages(4096), 1);
    assert_eq!(module_pages(4097), 2);
}

#[test]
fn framebuffer_description() {
    let f = fb_info(0x8000_0000, 1024, 768, 1280, PixelLayout::Rgb);
    assert_eq!((f.addr, f.pitch, f.width, f.height), (0x8000_0000, 5120, 1024, 768));
    assert_eq!((f.bpp, f.fb_type), (32, 1));
    assert_eq!((f.red_pos, f.red_size, f.green_pos, f.green_size, f.blue_pos, f.blue_size), (0, 8, 8, 8, 16, 8));
    let g = fb_info(0, 800, 600, 800, PixelLayout::Bgr);
    assert_eq!((g.red_pos, g.green_pos, g.blue_pos), (16, 8, 0));
    let o = fb_info(0, 800, 600, 800, PixelLayout::Other);
    assert_eq!((o.red_pos, o.green_pos, o.blue_pos), (0, 8, 16));
    assert_eq!(fb_info(0, 1, 1, 0x4000_0001, PixelLayout::Rgb).pitch, 4);
}

#[test]
fn wide_string_length() {
    assert_eq!(wcslen(&[0x41, 0x42, 0, 0x43]), 2);
    assert_eq!(wcslen(&[0]), 0);
}

#[test]
fn which_directory_entries_are_loaded() {
    assert!(module_entry_wanted(false, 1));
    assert!(!module_entry_wanted(true, 100));
    assert!(!module_entry_wanted(false, 0));
    assert!(module_read_whole(4096, 4096));
    assert!(!module_read_whole(4000, 4096));
}
