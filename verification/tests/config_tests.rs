use bang::config::{file_notices, from_file, notices, parse, split, Config, Notice, Target, MAX_CONFIG_SIZE};

fn units(s: &str) -> Vec<u16> {
    s.encode_utf16().collect()
}

const EXAMPLE: &str = "    timeout 5
    default Quark

    entry Quark
        multiboot \\kernel.bin
        modules   \\drivers

    entry UEFI Shell
        chainload \\EFI\\tools\\Shell.efi

    entry Fedora
        linux   \\vmlinuz
        initrd  \\initrd.img
        options root=/dev/sda2 ro
";

#[test]
fn example_config_reads_as_documented() {
    let c = parse(EXAMPLE);
    assert_eq!(c.timeout, 5);
    assert_eq!(c.default, 0);
    assert!(c.autodetect);
    assert_eq!(c.entries.len(), 3);
    assert_eq!(c.entries[0].title, "Quark");
    match &c.entries[0].target {
        Target::Multiboot { kernel, modules } => {
            assert_eq!(*kernel, units("\\kernel.bin"));
            assert_eq!(*modules, Some(units("\\drivers")));
        }
        _ => panic!("not multiboot"),
    }
    assert_eq!(c.entries[1].title, "UEFI Shell");
    match &c.entries[1].target {
        Target::Chainload { path, device } => {
            assert_eq!(*path, units("\\EFI\\tools\\Shell.efi"));
            assert_eq!(*device, None);
        }
        _ => panic!("not chainload"),
    }
    assert_eq!(c.entries[2].title, "Fedora");
    match &c.entries[2].target {
        Target::Linux { kernel, initrd, cmdline } => {
            assert_eq!(*kernel, units("\\vmlinuz"));
            assert_eq!(*initrd, Some(units("\\initrd.img")));
            assert_eq!(cmdline, "root=/dev/sda2 ro");
        }
        _ => panic!("not linux"),
    }
}

#[test]
fn default_by_title_may_name_a_later_entry() {
    let c = parse("default Second\nentry First\nchainload \\a.efi\nentry Second\nchainload \\b.efi\n");
    assert_eq!(c.default, 1);
}

#[test]
fn default_by_number_and_out_of_range() {
    let c = parse("default 1\nentry A\nchainload \\a.efi\nentry B\nchainload \\b.efi\n");
    assert_eq!(c.default, 1);
    let c = parse("default 7\nentry A\nchainload \\a.efi\nentry B\nchainload \\b.efi\n");
    assert_eq!(c.default, 0);
}

#[test]
fn default_naming_no_entry_keeps_the_number() {
    let c = parse("default 1\ndefault Nope\nentry A\nchainload \\a.efi\nentry B\nchainload \\b.efi\n");
    assert_eq!(c.default, 1);
}

#[test]
fn default_title_picks_first_of_equal_titles() {
    let c = parse("default X\nentry Y\nchainload \\y\nentry X\nchainload \\a\nentry X\nchainload \\b\n");
    assert_eq!(c.default, 1);
}

#[test]
fn timeout_values() {
    assert_eq!(parse("timeout 0").timeout, 0);
    assert_eq!(parse("timeout +7").timeout, 7);
    assert_eq!(parse("timeout abc").timeout, 5);
    assert_eq!(parse("timeout -1").timeout, 5);
    assert_eq!(parse("timeout +").timeout, 5);
    assert_eq!(parse("timeout").timeout, 5);
    assert_eq!(parse("timeout 18446744073709551615").timeout, u64::MAX);
    assert_eq!(parse("timeout 18446744073709551616").timeout, 5);
    assert_eq!(parse("timeout 3 # three seconds").timeout, 3);
    assert_eq!(parse("timeout 9\r\n").timeout, 9);
}

#[test]
fn autodetect_values() {
    for off in ["off", "no", "false", "0"] {
        assert!(!parse(&format!("autodetect {}", off)).autodetect);
    }
    assert!(parse("autodetect yes").autodetect);
    assert!(parse("autodetect OFF").autodetect);
    assert!(parse("").autodetect);
}

#[test]
fn entry_without_a_target_is_dropped() {
    let c = parse("entry Empty\nentry Real\nmultiboot \\k.bin\n");
    assert_eq!(c.entries.len(), 1);
    assert_eq!(c.entries[0].title, "Real");
}

#[test]
fn directives_before_any_entry_and_unknown_ones_are_skipped() {
    let c = parse("multiboot \\k.bin\nfrobnicate now\nentry A\nwhatever\nchainload \\a.efi\n");
    assert_eq!(c.entries.len(), 1);
    match &c.entries[0].target {
        Target::Chainload { path, .. } => assert_eq!(*path, units("\\a.efi")),
        _ => panic!(),
    }
}

#[test]
fn directives_for_another_kind_of_entry_are_ignored() {
    let c = parse("entry M\nmultiboot \\k\ninitrd \\i\noptions quiet\nentry L\nlinux \\v\nmodules \\d\n");
    match &c.entries[0].target {
        Target::Multiboot { kernel, modules } => {
            assert_eq!(*kernel, units("\\k"));
            assert_eq!(*modules, None);
        }
        _ => panic!(),
    }
    match &c.entries[1].target {
        Target::Linux { kernel, initrd, cmdline } => {
            assert_eq!(*kernel, units("\\v"));
            assert_eq!(*initrd, None);
            assert_eq!(cmdline, "");
        }
        _ => panic!(),
    }
}

#[test]
fn a_path_ucs2_cannot_hold_is_refused() {
    // A character outside the Basic Multilingual Plane has no UCS-2 unit.
    let c = parse("entry A\nmultiboot \\k\u{1F600}.bin\n");
    assert_eq!(c.entries.len(), 0);
    let c = parse("entry A\nmultiboot \\k\nmodules \\d\u{1F600}\n");
    match &c.entries[0].target {
        Target::Multiboot { modules, .. } => assert_eq!(*modules, None),
        _ => panic!(),
    }
    let c = parse("entry A\nmultiboot \\k\u{e9}\n");
    match &c.entries[0].target {
        Target::Multiboot { kernel, .. } => assert_eq!(*kernel, vec![0x5C, 0x6B, 0xE9]),
        _ => panic!(),
    }
}

#[test]
fn later_target_replaces_earlier() {
    let c = parse("entry A\nmultiboot \\k\nmodules \\d\nchainload \\x.efi\n");
    match &c.entries[0].target {
        Target::Chainload { path, .. } => assert_eq!(*path, units("\\x.efi")),
        _ => panic!(),
    }
}

#[test]
fn unicode_whitespace_is_trimmed() {
    let c = parse("\u{3000}timeout\u{00A0}4\u{2003}\n");
    assert_eq!(c.timeout, 4);
}

#[test]
fn split_directive_and_argument() {
    assert_eq!(split("  timeout   5  "), ("timeout", "5"));
    assert_eq!(split("entry UEFI Shell"), ("entry", "UEFI Shell"));
    assert_eq!(split("alone"), ("alone", ""));
    assert_eq!(split(""), ("", ""));
    assert_eq!(split("   "), ("", ""));
    assert_eq!(split("a\tb  c "), ("a", "b  c"));
}

#[test]
fn every_parse_is_well_formed() {
    let texts = [
        "",
        "default 3",
        "default Z\nentry A\nmultiboot \\k",
        "entry A\nentry B\nentry C\nlinux \\v\ndefault 2",
        EXAMPLE,
        "# only a comment\n\n\n",
    ];
    for t in texts {
        let c = parse(t);
        assert!(c.default < c.entries.len() || (c.entries.is_empty() && c.default == 0));
        for e in &c.entries {
            if let Target::Multiboot { kernel, .. } = &e.target {
                assert!(!kernel.is_empty());
            }
        }
    }
}

#[test]
fn comment_lines_change_nothing() {
    let a = parse("timeout 2\n");
    let b = parse("timeout 2\n   # timeout 9\n#entry X\n");
    assert_eq!(a.timeout, b.timeout);
    assert_eq!(a.entries.len(), b.entries.len());
}

#[test]
fn builtin_is_the_old_single_entry() {
    let c = Config::builtin();
    assert_eq!(c.timeout, 0);
    assert_eq!(c.default, 0);
    assert!(c.autodetect);
    assert_eq!(c.entries.len(), 1);
    assert_eq!(c.entries[0].title, "Quark");
    match &c.entries[0].target {
        Target::Multiboot { kernel, modules } => {
            assert_eq!(*kernel, units("\\kernel.bin"));
            assert_eq!(*modules, Some(units("\\drivers")));
        }
        _ => panic!(),
    }
}

#[test]
fn config_file_size_and_encoding() {
    assert!(from_file(0, b"").is_none());
    assert!(from_file(MAX_CONFIG_SIZE + 1, b"timeout 1").is_none());
    assert!(from_file(4, &[0x74, 0xFF, 0xFE, 0x0A]).is_none());
    let c = from_file(9, b"timeout 1").unwrap();
    assert_eq!(c.timeout, 1);
    let c = from_file(MAX_CONFIG_SIZE, "entry \u{e9}t\u{e9}\nchainload \\e".as_bytes()).unwrap();
    assert_eq!(c.entries[0].title, "\u{e9}t\u{e9}");
}

fn describe(c: &Config) -> String {
    let mut s = format!("timeout={} default={} autodetect={}", c.timeout, c.default, c.autodetect);
    for e in &c.entries {
        s += &format!(" [{}: ", e.title);
        match &e.target {
            Target::Multiboot { kernel, modules } => s += &format!("mb {:?} {:?}", kernel, modules),
            Target::Chainload { path, device } => s += &format!("chain {:?} {:?}", path, device),
            Target::Linux { kernel, initrd, cmdline } => {
                s += &format!("linux {:?} {:?} {:?}", kernel, initrd, cmdline)
            }
        }
        s += "]";
    }
    s
}

const SMALL: &str = "timeout 3\nentry A\nmultiboot \\a\nentry B\nlinux \\v\noptions quiet\ndefault B\n";

#[test]
fn skipped_lines_may_stand_anywhere() {
    let base = describe(&parse(SMALL));
    let lines: Vec<&str> = SMALL.lines().collect();
    for extra in ["", "   ", "\t# a comment", "# timeout 9", "frobnicate 7", "  bogus", "entries x"] {
        for i in 0..=lines.len() {
            let mut v = lines.clone();
            v.insert(i, extra);
            let text = v.join("\n") + "\n";
            assert_eq!(describe(&parse(&text)), base, "{:?} inserted at line {}", extra, i);
        }
        // As a last line with no newline after it.
        assert_eq!(describe(&parse(&(SMALL.to_string() + extra))), base);
    }
}

#[test]
fn a_comment_may_end_any_line() {
    let base = describe(&parse(SMALL));
    let lines: Vec<&str> = SMALL.lines().collect();
    for i in 0..lines.len() {
        let mut v: Vec<String> = lines.iter().map(|l| l.to_string()).collect();
        v[i] += "# timeout 9 entry Z";
        let text = v.join("\n") + "\n";
        assert_eq!(describe(&parse(&text)), base, "comment after line {}", i);
    }
}

#[test]
fn skipped_lines_are_reported_with_their_reasons() {
    let text = "timeout 3\n\
                options quiet\n\
                entry A\n\
                multiboot \\k\u{1F600}\n\
                modules \\drivers\n\
                initrd \\i\n\
                options x\n\
                frobnicate 7  # trailing comment\n\
                entry B\n\
                linux \\v\n\
                modules \\m\n\
                initrd \\i\u{1F600}.img\n\
                options quiet\n\
                default Nobody\n";
    assert_eq!(
        notices(text),
        vec![
            Notice::BeforeAnyEntry("options".to_string()),
            Notice::BadPath("\\k\u{1F600}".to_string()),
            Notice::InitrdNeedsLinux,
            Notice::OptionsNeedLinux,
            Notice::Ignored("frobnicate".to_string()),
            Notice::ModulesNeedMultiboot,
            Notice::BadPath("\\i\u{1F600}.img".to_string()),
            Notice::NoEntryNamed("Nobody".to_string()),
        ]
    );
    // The example and a default that names an entry, even a later one, say nothing.
    assert_eq!(notices(EXAMPLE), vec![]);
    assert_eq!(notices("default B\nentry A\nchainload \\a\nentry B\nchainload \\b\n"), vec![]);
    // A default title of an entry that is dropped for naming nothing is reported.
    assert_eq!(
        notices("default A\nentry A\n"),
        vec![Notice::NoEntryNamed("A".to_string())]
    );
    // Comments and blank lines are not reported.
    assert_eq!(notices("\n   \n# timeout x\n"), vec![]);
}

#[test]
fn file_notices_need_a_file_that_is_read() {
    let text = b"bogus 1\n";
    assert_eq!(file_notices(text.len(), text), vec![Notice::BeforeAnyEntry("bogus".to_string())]);
    assert_eq!(file_notices(0, text), vec![]);
    assert_eq!(file_notices(MAX_CONFIG_SIZE + 1, text), vec![]);
    assert_eq!(file_notices(2, &[0xFF, 0xFE]), vec![]);
}
