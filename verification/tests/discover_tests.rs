use bang::config::{parse, Config, Entry, Target};
use bang::discover::{
    choose_loader, found, is_self, is_valid_ucs2, loader_path, loaders, offer, pretty, same_file, ucs2_to_string, units_eq,
    windows_path, windows_title, worth_probing, Found,
};

fn u(s: &str) -> Vec<u16> {
    s.encode_utf16().collect()
}

#[test]
fn pretty_names() {
    assert_eq!(pretty(&u("fedora"), &u("grubx64.efi")), "Fedora");
    assert_eq!(pretty(&u("ubuntu"), &u("shimx64.efi")), "Ubuntu");
    assert_eq!(pretty(&u("systemd"), &u("systemd-bootx64.efi")), "systemd-boot");
    assert_eq!(pretty(&u("anything"), &u("SYSTEMD-BOOTX64.EFI")), "systemd-boot");
    assert_eq!(pretty(&u("refind"), &u("refind_x64.efi")), "rEFInd");
    assert_eq!(pretty(&u("BOOT"), &u("BOOTX64.EFI")), "EFI default loader");
    assert_eq!(pretty(&u("boot"), &u("grubx64.efi")), "EFI default loader");
    assert_eq!(pretty(&u("Debian"), &u("grubx64.efi")), "Debian");
    assert_eq!(pretty(&u("1st"), &u("grubx64.efi")), "1st");
    assert_eq!(pretty(&u(""), &u("grubx64.efi")), "");
    assert_eq!(pretty(&u("\u{e9}cole"), &u("grubx64.efi")), "\u{c9}cole");
}

#[test]
fn ucs2_text_conversion() {
    assert_eq!(ucs2_to_string(&u("Caf\u{e9}")), "Caf\u{e9}");
    assert_eq!(ucs2_to_string(&[]), "");
}

#[test]
fn same_file_is_a_case_insensitive_tail() {
    let dp = u("PciRoot(0x0)/Pci(0x1,0x1)/Ata(0x0)/HD(1,GPT)/\\EFI\\BOOT\\BOOTX64.EFI");
    assert!(same_file(&dp, &u("\\efi\\boot\\bootx64.efi")));
    assert!(same_file(&dp, &u("\\EFI\\BOOT\\BOOTX64.EFI")));
    assert!(!same_file(&dp, &u("\\EFI\\fedora\\shimx64.efi")));
    assert!(!same_file(&u("x.efi"), &u("\\longer\\x.efi")));
    assert!(same_file(&dp, &[]));
}

#[test]
fn where_loaders_are_looked_for() {
    assert_eq!(loader_path(&u("fedora"), &u("shimx64.efi")), u("\\EFI\\fedora\\shimx64.efi"));
    assert_eq!(windows_path(), u("\\EFI\\Microsoft\\Boot\\bootmgfw.efi"));
    assert_eq!(windows_title(), "Windows Boot Manager");
    let l = loaders();
    let expect = ["shimx64.efi", "grubx64.efi", "systemd-bootx64.efi", "refind_x64.efi", "BOOTX64.EFI"];
    assert_eq!(l.len(), expect.len());
    for (a, b) in l.iter().zip(expect.iter()) {
        assert_eq!(*a, u(b));
    }
}

#[test]
fn which_directories_are_probed() {
    assert!(!worth_probing(&u(".")));
    assert!(!worth_probing(&u("..")));
    assert!(!worth_probing(&u("Microsoft")));
    assert!(worth_probing(&u("microsoft")));
    assert!(worth_probing(&u("fedora")));
    assert!(units_eq(&u("a"), &u("a")));
    assert!(!units_eq(&u("a"), &u("ab")));
}

#[test]
fn bang_does_not_offer_itself() {
    let own = Some((7usize, u("PciRoot(0x0)/HD(1)/\\EFI\\BOOT\\BOOTX64.EFI")));
    assert!(is_self(&own, 7, &u("\\EFI\\BOOT\\BOOTX64.EFI")));
    assert!(!is_self(&own, 8, &u("\\EFI\\BOOT\\BOOTX64.EFI")));
    assert!(!is_self(&own, 7, &u("\\EFI\\fedora\\shimx64.efi")));
    assert!(!is_self(&None, 7, &u("\\EFI\\BOOT\\BOOTX64.EFI")));
}

fn chainload_of(e: &Entry) -> (Vec<u16>, Option<usize>) {
    match &e.target {
        Target::Chainload { path, device } => (path.clone(), *device),
        _ => panic!("not a chainload"),
    }
}

#[test]
fn finds_are_offered_after_the_configuration() {
    let mut cfg = parse("default 1\nentry A\nchainload \\a.efi\nentry B\nmultiboot \\k\n");
    let finds = vec![
        found(3, &u("fedora"), &u("shimx64.efi"), u("\\EFI\\fedora\\shimx64.efi")),
        Found { title: "Windows Boot Manager".to_string(), device: 4, path: windows_path() },
    ];
    offer(&mut cfg, finds);
    assert_eq!(cfg.default, 1);
    assert_eq!(cfg.entries.len(), 4);
    assert_eq!(cfg.entries[0].title, "A");
    assert_eq!(cfg.entries[1].title, "B");
    assert_eq!(cfg.entries[2].title, "Fedora");
    assert_eq!(chainload_of(&cfg.entries[2]), (u("\\EFI\\fedora\\shimx64.efi"), Some(3)));
    assert_eq!(chainload_of(&cfg.entries[3]), (windows_path(), Some(4)));
}

#[test]
fn a_find_the_configuration_boots_is_not_added() {
    // The configured entry names no volume, so it matches a find on any.
    let mut cfg = parse("entry A\nchainload \\EFI\\fedora\\shimx64.efi\n");
    offer(&mut cfg, vec![found(3, &u("fedora"), &u("shimx64.efi"), u("\\EFI\\fedora\\shimx64.efi"))]);
    assert_eq!(cfg.entries.len(), 1);
}

#[test]
fn the_same_path_on_two_volumes_is_two_finds() {
    let mut cfg = Config { timeout: 5, default: 0, entries: Vec::new(), autodetect: true };
    let f = |d: usize| found(d, &u("fedora"), &u("shimx64.efi"), u("\\EFI\\fedora\\shimx64.efi"));
    offer(&mut cfg, vec![f(1), f(2), f(1)]);
    assert_eq!(cfg.entries.len(), 2);
    assert_eq!(chainload_of(&cfg.entries[0]).1, Some(1));
    assert_eq!(chainload_of(&cfg.entries[1]).1, Some(2));
}

#[test]
fn offering_twice_adds_nothing_more() {
    let f = |d: usize| found(d, &u("debian"), &u("grubx64.efi"), u("\\EFI\\debian\\grubx64.efi"));
    let mut cfg = Config::builtin();
    offer(&mut cfg, vec![f(1), f(2)]);
    let n = cfg.entries.len();
    offer(&mut cfg, vec![f(1), f(2)]);
    assert_eq!(cfg.entries.len(), n);
    assert_eq!(n, 3);
    assert_eq!(cfg.entries[0].title, "Quark");
}

#[test]
fn autodetect_off_offers_nothing() {
    let mut cfg = parse("autodetect off\nentry A\nchainload \\a.efi\n");
    offer(&mut cfg, vec![found(3, &u("fedora"), &u("shimx64.efi"), u("\\EFI\\fedora\\shimx64.efi"))]);
    assert_eq!(cfg.entries.len(), 1);
    assert_eq!(cfg.entries[0].title, "A");
    assert!(!cfg.autodetect);
}

#[test]
fn the_first_loader_there_is_offered_unless_it_is_bang() {
    let own = Some((7usize, u("PciRoot(0x0)/HD(1)/\\EFI\\BOOT\\BOOTX64.EFI")));
    // shim and grub both there: shim is offered.
    let f = choose_loader(&own, 3, &u("fedora"), &[true, true, false, false, false]).unwrap();
    assert_eq!(f.title, "Fedora");
    assert_eq!(f.device, 3);
    assert_eq!(f.path, u("\\EFI\\fedora\\shimx64.efi"));
    // Only grub.
    let f = choose_loader(&own, 3, &u("debian"), &[false, true, false, false, false]).unwrap();
    assert_eq!(f.path, u("\\EFI\\debian\\grubx64.efi"));
    // systemd-boot is called by its own name.
    let f = choose_loader(&own, 3, &u("systemd"), &[false, false, true, false, false]).unwrap();
    assert_eq!(f.title, "systemd-boot");
    // Nothing there.
    assert!(choose_loader(&own, 3, &u("empty"), &[false; 5]).is_none());
    // The fallback loader on Bang's own volume is Bang; on another it is not.
    assert!(choose_loader(&own, 7, &u("BOOT"), &[false, false, false, false, true]).is_none());
    let f = choose_loader(&own, 8, &u("BOOT"), &[false, false, false, false, true]).unwrap();
    assert_eq!(f.title, "EFI default loader");
}

#[test]
fn firmware_names_are_checked_before_use() {
    assert!(is_valid_ucs2(&u("fedora")));
    assert!(is_valid_ucs2(&[]));
    assert!(!is_valid_ucs2(&[0x41, 0]));
    assert!(!is_valid_ucs2(&[0xD800]));
    assert!(is_valid_ucs2(&[0xE9, 0xFFFF]));
}
