//! Finding what is installed, rather than being told.
//!
//! The firmware lists the volumes it can see; on each, Bang looks for Windows
//! at the one path it always uses, and for a loader in every vendor directory
//! under `\EFI`. What it finds is offered alongside the configuration and
//! chainloaded. The looking is done by the caller; this module decides what
//! to look for, what a find is called, and what is Bang itself.
//!
//! Names are UCS-2 units as the firmware reports them: no NUL, no surrogates.

use vstd::prelude::*;
use uefi::Char16;
use crate::text::string_from_chars;
use crate::ucs2::{ucs2_of, ucs2_units, ucs2_from_chars};
use crate::text::chars_of;
use crate::config::{Config, ConfigView, Entry, EntryView, Target, TargetView, entries_view};

verus! {

/// A loader found on some volume.
pub struct Found {
    pub title: String,
    /// Which volume it is on (the address of the firmware's handle for it).
    pub device: usize,
    pub path: Vec<u16>,
}

/// What a [`Found`] says, as values.
pub struct FoundView {
    pub title: Seq<char>,
    pub device: usize,
    pub path: Seq<u16>,
}

impl View for Found {
    type V = FoundView;

    open spec fn view(&self) -> FoundView {
        FoundView { title: self.title@, device: self.device, path: self.path@ }
    }
}

/// Units a UEFI string can hold: neither NUL nor half of a surrogate pair.
pub open spec fn valid_ucs2(s: Seq<u16>) -> bool {
    forall|i: int| 0 <= i < s.len() ==> #[trigger] s[i] != 0 && !(0xD800 <= s[i] <= 0xDFFF)
}

/// Whether `s` holds only units a UEFI string can hold.
pub fn is_valid_ucs2(s: &[u16]) -> (r: bool)
    ensures
        r == valid_ucs2(s@),
{
    let mut i: usize = 0;
    while i < s.len()
        invariant
            i <= s@.len(),
            forall|k: int| 0 <= k < i ==> #[trigger] s@[k] != 0 && !(0xD800 <= s@[k] <= 0xDFFF),
        decreases s@.len() - i,
    {
        if s[i] == 0 || (0xD800 <= s[i] && s[i] <= 0xDFFF) {
            return false;
        }
        i = i + 1;
    }
    true
}

/// The text a UEFI string spells: each unit is a character's code point.
pub open spec fn text_of(s: Seq<u16>) -> Seq<char> {
    Seq::new(s.len(), |i: int| s[i] as char)
}

/// The character a UCS-2 unit stands for.
///
/// Trusted: `uefi::Char16::try_from(u16)`, which accepts every unit that is
/// not a surrogate, and `From<Char16> for char`, which gives the character with
/// that code point.
#[verifier::external_body]
fn unit_char(u: u16) -> (c: char)
    requires
        !(0xD800 <= u <= 0xDFFF),
    ensures
        c as u32 == u as u32,
{
    char::from(Char16::try_from(u).unwrap())
}

/// The text of a UEFI string, as a `String`.
pub fn ucs2_to_string(s: &[u16]) -> (r: String)
    requires
        valid_ucs2(s@),
    ensures
        r@ == text_of(s@),
{
    let mut cs: Vec<char> = Vec::new();
    let mut i: usize = 0;
    while i < s.len()
        invariant
            valid_ucs2(s@),
            i <= s@.len(),
            cs@.len() == i,
            forall|k: int| 0 <= k < i ==> cs@[k] == (s@[k] as char),
        decreases s@.len() - i,
    {
        let c = unit_char(s[i]);
        assert(!(0xD800 <= s@[i as int] <= 0xDFFF));
        assert(c == (s@[i as int] as char));
        cs.push(c);
        i = i + 1;
    }
    assert(cs@ =~= text_of(s@));
    string_from_chars(cs.as_slice())
}

/// The characters `char::to_uppercase` gives for `c` (one to three of them).
pub uninterp spec fn uppercase_of(c: char) -> Seq<char>;

pub open spec fn is_ascii_lower(c: char) -> bool {
    'a' <= c <= 'z'
}

/// `c` in upper case, as `char::to_uppercase` gives it.
///
/// Trusted: std's `char::to_uppercase`, collected into a `String`. Its result
/// depends on `c` alone, and std documents that an ASCII letter `a`–`z` maps to
/// its capital and that any other ASCII character, having no uppercase
/// mapping, maps to itself.
#[verifier::external_body]
fn char_to_uppercase(c: char) -> (r: String)
    ensures
        r@ == uppercase_of(c),
        is_ascii_lower(c) ==> r@ == seq![((c as u32) - 32) as char],
        (c as u32) < 128 && !is_ascii_lower(c) ==> r@ == seq![c],
{
    c.to_uppercase().collect()
}

/// A name with its first character in upper case, the rest as it was.
pub open spec fn capitalized(name: Seq<char>) -> Seq<char> {
    if name.len() == 0 {
        name
    } else {
        uppercase_of(name[0]) + name.drop_first()
    }
}

/// An ASCII letter in lower case; anything else as it is.
pub open spec fn ascii_lower(c: char) -> char {
    if 'A' <= c <= 'Z' {
        ((c as u32) + 32) as char
    } else {
        c
    }
}

/// An ASCII letter in upper case; anything else as it is.
pub open spec fn ascii_upper(c: char) -> char {
    if 'a' <= c <= 'z' {
        ((c as u32) - 32) as char
    } else {
        c
    }
}

/// `str::eq_ignore_ascii_case`: the same text, up to the case of ASCII letters.
pub open spec fn eq_ignore_ascii_case(a: Seq<char>, b: Seq<char>) -> bool {
    a.len() == b.len() && forall|i: int| 0 <= i < a.len() ==> ascii_lower(#[trigger] a[i])
        == ascii_lower(b[i])
}

fn ascii_lower_exec(c: char) -> (r: char)
    ensures
        r == ascii_lower(c),
{
    if 'A' <= c && c <= 'Z' {
        let v = (c as u32) + 32;
        assert(0x61 <= v <= 0x7A);
        char_from_ascii(v)
    } else {
        c
    }
}

fn ascii_upper_exec(c: char) -> (r: char)
    ensures
        r == ascii_upper(c),
{
    if 'a' <= c && c <= 'z' {
        let v = (c as u32) - 32;
        char_from_ascii(v)
    } else {
        c
    }
}

/// The character with an ASCII code point.
fn char_from_ascii(v: u32) -> (c: char)
    requires
        v < 128,
    ensures
        c == (v as char),
{
    (v as u8) as char
}

/// Whether the UEFI string `a` spells `b`, up to the case of ASCII letters.
fn units_eq_ignore_ascii_case(a: &[u16], b: &str) -> (r: bool)
    requires
        valid_ucs2(a@),
    ensures
        r == eq_ignore_ascii_case(text_of(a@), b@),
{
    let bs = chars_of(b);
    if a.len() != bs.len() {
        return false;
    }
    let mut i: usize = 0;
    while i < a.len()
        invariant
            valid_ucs2(a@),
            bs@ == b@,
            a@.len() == bs@.len(),
            i <= a@.len(),
            forall|k: int| 0 <= k < i ==> ascii_lower(#[trigger] text_of(a@)[k]) == ascii_lower(
                b@[k],
            ),
        decreases a@.len() - i,
    {
        let c = unit_char(a[i]);
        assert(c == text_of(a@)[i as int]);
        if ascii_lower_exec(c) != ascii_lower_exec(bs[i]) {
            return false;
        }
        i = i + 1;
    }
    true
}

/// What a loader is called in the menu. The vendor directory usually names
/// the distribution (`fedora` is Fedora), but two boot managers install under
/// their own name, and the fallback directory `BOOT` names nobody.
pub open spec fn spec_pretty(vendor: Seq<u16>, loader: Seq<u16>) -> Seq<char> {
    if eq_ignore_ascii_case(text_of(loader), "systemd-bootx64.efi"@) {
        "systemd-boot"@
    } else if eq_ignore_ascii_case(text_of(loader), "refind_x64.efi"@) {
        "rEFInd"@
    } else if eq_ignore_ascii_case(text_of(vendor), "BOOT"@) {
        "EFI default loader"@
    } else {
        capitalized(text_of(vendor))
    }
}

/// [`spec_pretty`] for a vendor name that starts with an ASCII character,
/// whose capital `char::to_uppercase` gives as std documents it.
pub open spec fn ascii_pretty(vendor: Seq<u16>, loader: Seq<u16>) -> Seq<char> {
    if eq_ignore_ascii_case(text_of(loader), "systemd-bootx64.efi"@) {
        "systemd-boot"@
    } else if eq_ignore_ascii_case(text_of(loader), "refind_x64.efi"@) {
        "rEFInd"@
    } else if eq_ignore_ascii_case(text_of(vendor), "BOOT"@) {
        "EFI default loader"@
    } else if vendor.len() == 0 {
        seq![]
    } else {
        seq![ascii_upper(text_of(vendor)[0])] + text_of(vendor).drop_first()
    }
}

/// What to call the loader `loader` found in the directory `vendor`.
pub fn pretty(vendor: &[u16], loader: &[u16]) -> (r: String)
    requires
        valid_ucs2(vendor@),
        valid_ucs2(loader@),
    ensures
        r@ == spec_pretty(vendor@, loader@),
        // A vendor directory whose name starts with an ASCII character is
        // called by its name with that character made a capital.
        vendor@.len() == 0 || vendor@[0] < 128 ==> r@ == ascii_pretty(vendor@, loader@),
{
    if units_eq_ignore_ascii_case(loader, "systemd-bootx64.efi") {
        return String::from_str("systemd-boot");
    }
    if units_eq_ignore_ascii_case(loader, "refind_x64.efi") {
        return String::from_str("rEFInd");
    }
    if units_eq_ignore_ascii_case(vendor, "BOOT") {
        return String::from_str("EFI default loader");
    }
    if vendor.len() == 0 {
        assert(text_of(vendor@) =~= seq![]);
        return String::new();
    }
    let first = unit_char(vendor[0]);
    let mut out = char_to_uppercase(first);
    proof {
        if vendor@[0] < 128 {
            assert(text_of(vendor@)[0] == first);
            assert(out@ == seq![ascii_upper(first)]);
        }
    }
    let rest = ucs2_to_string(vstd::slice::slice_subrange(vendor, 1, vendor.len()));
    out.append(rest.as_str());
    assert(text_of(vendor@.subrange(1, vendor@.len() as int)) =~= text_of(vendor@).drop_first());
    out
}

/// `t` with every ASCII letter in upper case.
pub open spec fn ascii_upper_all(t: Seq<char>) -> Seq<char> {
    Seq::new(t.len(), |i: int| ascii_upper(t[i]))
}

/// Whether the text of a device path ends with a file path, ignoring the case
/// of ASCII letters: the loaded-image path runs from the PCI root down, and a
/// file is the same file when it is the tail of it.
pub open spec fn spec_same_file(device_path_text: Seq<u16>, file: Seq<u16>) -> bool {
    let hay = ascii_upper_all(text_of(device_path_text));
    let needle = ascii_upper_all(text_of(file));
    needle.len() <= hay.len() && hay.subrange(hay.len() - needle.len(), hay.len() as int)
        == needle
}

/// Whether a device path's text ends with this file path.
pub fn same_file(device_path_text: &[u16], file: &[u16]) -> (r: bool)
    requires
        valid_ucs2(device_path_text@),
        valid_ucs2(file@),
    ensures
        r == spec_same_file(device_path_text@, file@),
{
    let ghost hay = ascii_upper_all(text_of(device_path_text@));
    let ghost needle = ascii_upper_all(text_of(file@));
    let n = file.len();
    let m = device_path_text.len();
    if n > m {
        return false;
    }
    let off = m - n;
    let mut i: usize = 0;
    while i < n
        invariant
            valid_ucs2(device_path_text@),
            valid_ucs2(file@),
            n == file@.len(),
            m == device_path_text@.len(),
            off == m - n,
            i <= n,
            hay == ascii_upper_all(text_of(device_path_text@)),
            needle == ascii_upper_all(text_of(file@)),
            forall|k: int| 0 <= k < i ==> hay[off + k] == needle[k],
        decreases n - i,
    {
        let a = ascii_upper_exec(unit_char(device_path_text[off + i]));
        let b = ascii_upper_exec(unit_char(file[i]));
        if a != b {
            assert(hay.subrange(hay.len() - needle.len(), hay.len() as int)[i as int] != needle[i as int]);
            return false;
        }
        i = i + 1;
    }
    assert(hay.subrange(hay.len() - needle.len(), hay.len() as int) =~= needle);
    true
}

/// Windows, at the one path it always uses.
pub open spec fn windows_path_spec() -> Seq<u16> {
    ucs2_units("\\EFI\\Microsoft\\Boot\\bootmgfw.efi"@)
}

/// The path Windows Boot Manager installs itself at.
pub fn windows_path() -> (r: Vec<u16>)
    ensures
        r@ == windows_path_spec(),
{
    proof {
        reveal_strlit("\\EFI\\Microsoft\\Boot\\bootmgfw.efi");
    }
    units_of_literal("\\EFI\\Microsoft\\Boot\\bootmgfw.efi")
}

/// The title Windows is offered under.
pub fn windows_title() -> (r: String)
    ensures
        r@ == "Windows Boot Manager"@,
{
    String::from_str("Windows Boot Manager")
}

fn units_of_literal(s: &str) -> (r: Vec<u16>)
    requires
        ucs2_of(s@) is Some,
    ensures
        r@ == ucs2_units(s@),
{
    let cs = chars_of(s);
    match ucs2_from_chars(cs.as_slice()) {
        Some(v) => v,
        None => {
            assert(false);
            Vec::new()
        },
    }
}

/// Filenames that mean "a bootloader lives here", in the order they are
/// preferred: `shim` before `grub`, because where both exist shim is the one
/// meant to be started.
pub open spec fn loaders_spec() -> Seq<Seq<u16>> {
    seq![
        ucs2_units("shimx64.efi"@),
        ucs2_units("grubx64.efi"@),
        ucs2_units("systemd-bootx64.efi"@),
        ucs2_units("refind_x64.efi"@),
        ucs2_units("BOOTX64.EFI"@),
    ]
}

/// The loader filenames, in order of preference.
pub fn loaders() -> (r: Vec<Vec<u16>>)
    ensures
        r@.len() == loaders_spec().len(),
        forall|i: int| 0 <= i < r@.len() ==> #[trigger] r@[i]@ == loaders_spec()[i],
{
    proof {
        reveal_strlit("shimx64.efi");
        reveal_strlit("grubx64.efi");
        reveal_strlit("systemd-bootx64.efi");
        reveal_strlit("refind_x64.efi");
        reveal_strlit("BOOTX64.EFI");
    }
    let mut v: Vec<Vec<u16>> = Vec::new();
    v.push(units_of_literal("shimx64.efi"));
    v.push(units_of_literal("grubx64.efi"));
    v.push(units_of_literal("systemd-bootx64.efi"));
    v.push(units_of_literal("refind_x64.efi"));
    v.push(units_of_literal("BOOTX64.EFI"));
    v
}

/// Whether a directory under `\EFI` is worth looking in: not `.` or `..`, and
/// not `Microsoft`, which is looked for at its own path.
pub open spec fn spec_worth_probing(name: Seq<u16>) -> bool {
    name != ucs2_units("."@) && name != ucs2_units(".."@) && name != ucs2_units("Microsoft"@)
}

pub fn worth_probing(name: &[u16]) -> (r: bool)
    ensures
        r == spec_worth_probing(name@),
{
    proof {
        reveal_strlit(".");
        reveal_strlit("..");
        reveal_strlit("Microsoft");
    }
    let dot = units_of_literal(".");
    let dotdot = units_of_literal("..");
    let ms = units_of_literal("Microsoft");
    !units_eq(name, dot.as_slice()) && !units_eq(name, dotdot.as_slice()) && !units_eq(name, ms.as_slice())
}

/// Whether two unit strings are the same.
pub fn units_eq(a: &[u16], b: &[u16]) -> (r: bool)
    ensures
        r == (a@ == b@),
{
    if a.len() != b.len() {
        return false;
    }
    let mut i: usize = 0;
    while i < a.len()
        invariant
            a@.len() == b@.len(),
            i <= a@.len(),
            forall|k: int| 0 <= k < i ==> a@[k] == b@[k],
        decreases a@.len() - i,
    {
        if a[i] != b[i] {
            return false;
        }
        i = i + 1;
    }
    assert(a@ =~= b@);
    true
}

/// `\EFI\<vendor>\<loader>`.
pub open spec fn spec_loader_path(vendor: Seq<u16>, loader: Seq<u16>) -> Seq<u16> {
    ucs2_units("\\EFI\\"@) + vendor + ucs2_units("\\"@) + loader
}

pub fn loader_path(vendor: &[u16], loader: &[u16]) -> (r: Vec<u16>)
    ensures
        r@ == spec_loader_path(vendor@, loader@),
{
    proof {
        reveal_strlit("\\EFI\\");
        reveal_strlit("\\");
    }
    let mut p = units_of_literal("\\EFI\\");
    let mut i: usize = 0;
    let ghost p0 = p@;
    while i < vendor.len()
        invariant
            i <= vendor@.len(),
            p@ == p0 + vendor@.take(i as int),
        decreases vendor@.len() - i,
    {
        p.push(vendor[i]);
        i = i + 1;
        assert(p@ =~= p0 + vendor@.take(i as int));
    }
    assert(vendor@.take(vendor@.len() as int) =~= vendor@);
    let sep = units_of_literal("\\");
    p.push(sep[0]);
    let ghost p1 = p@;
    assert(p1 =~= p0 + vendor@ + ucs2_units("\\"@));
    i = 0;
    while i < loader.len()
        invariant
            i <= loader@.len(),
            p@ == p1 + loader@.take(i as int),
        decreases loader@.len() - i,
    {
        p.push(loader[i]);
        i = i + 1;
        assert(p@ =~= p1 + loader@.take(i as int));
    }
    assert(loader@.take(loader@.len() as int) =~= loader@);
    p
}

/// Whether a find on `device` at `path` is Bang itself, which was loaded from
/// `own` (its volume and the text of its device path).
pub open spec fn spec_is_self(own: Option<(usize, Seq<u16>)>, device: usize, path: Seq<u16>) -> bool {
    match own {
        Some((d, p)) => d == device && spec_same_file(p, path),
        None => false,
    }
}

pub fn is_self(own: &Option<(usize, Vec<u16>)>, device: usize, path: &[u16]) -> (r: bool)
    requires
        own matches Some((d, p)) ==> valid_ucs2(p@),
        valid_ucs2(path@),
    ensures
        r == spec_is_self(
            match own {
                Some((d, p)) => Some((*d, p@)),
                None => None,
            },
            device,
            path@,
        ),
{
    match own {
        Some((d, p)) => *d == device && same_file(p.as_slice(), path),
        None => false,
    }
}

/// The find for a loader at `path`, in the directory `vendor` of `device`.
pub fn found(device: usize, vendor: &[u16], loader: &[u16], path: Vec<u16>) -> (r: Found)
    requires
        valid_ucs2(vendor@),
        valid_ucs2(loader@),
    ensures
        r@ == (FoundView { title: spec_pretty(vendor@, loader@), device, path: path@ }),
{
    Found { title: pretty(vendor, loader), device, path }
}

/// The first index at which `present` holds, if any.
pub open spec fn first_present(present: Seq<bool>) -> Option<int>
    decreases present.len(),
{
    if present.len() == 0 {
        None
    } else {
        match first_present(present.drop_last()) {
            Some(i) => Some(i),
            None => if present.last() {
                Some(present.len() - 1)
            } else {
                None
            },
        }
    }
}

pub open spec fn own_view(own: &Option<(usize, Vec<u16>)>) -> Option<(usize, Seq<u16>)> {
    match own {
        Some((d, p)) => Some((*d, p@)),
        None => None,
    }
}

/// What a vendor directory on `device` offers, given which of the loader
/// filenames ([`loaders_spec`], in order) are files there: the first that
/// is, unless that one is Bang itself, in which case nothing.
pub open spec fn spec_choose_loader(
    own: Option<(usize, Seq<u16>)>,
    device: usize,
    vendor: Seq<u16>,
    present: Seq<bool>,
) -> Option<FoundView> {
    match first_present(present) {
        None => None,
        Some(i) => {
            let loader = loaders_spec()[i];
            let path = spec_loader_path(vendor, loader);
            if spec_is_self(own, device, path) {
                None
            } else {
                Some(FoundView { title: spec_pretty(vendor, loader), device, path })
            }
        },
    }
}

proof fn lemma_literal_units_valid(s: Seq<char>)
    requires
        forall|i: int| 0 <= i < s.len() ==> 0 < #[trigger] (s[i] as u16) < 0xD800,
    ensures
        valid_ucs2(ucs2_units(s)),
{
    assert forall|i: int| 0 <= i < ucs2_units(s).len() implies #[trigger] ucs2_units(s)[i] != 0
        && !(0xD800 <= ucs2_units(s)[i] <= 0xDFFF) by {
        assert(ucs2_units(s)[i] == s[i] as u16);
    }
}

proof fn lemma_loaders_valid()
    ensures
        forall|i: int| 0 <= i < loaders_spec().len() ==> valid_ucs2(#[trigger] loaders_spec()[i]),
        valid_ucs2(ucs2_units("\\EFI\\"@)),
        valid_ucs2(ucs2_units("\\"@)),
{
    reveal_strlit("shimx64.efi");
    reveal_strlit("grubx64.efi");
    reveal_strlit("systemd-bootx64.efi");
    reveal_strlit("refind_x64.efi");
    reveal_strlit("BOOTX64.EFI");
    reveal_strlit("\\EFI\\");
    reveal_strlit("\\");
    lemma_literal_units_valid("shimx64.efi"@);
    lemma_literal_units_valid("grubx64.efi"@);
    lemma_literal_units_valid("systemd-bootx64.efi"@);
    lemma_literal_units_valid("refind_x64.efi"@);
    lemma_literal_units_valid("BOOTX64.EFI"@);
    lemma_literal_units_valid("\\EFI\\"@);
    lemma_literal_units_valid("\\"@);
}

/// Decide what a vendor directory offers: `present[i]` says whether the
/// `i`-th loader filename is a file there. The first present one is offered,
/// unless it is Bang itself; later ones are not looked at.
pub fn choose_loader(
    own: &Option<(usize, Vec<u16>)>,
    device: usize,
    vendor: &[u16],
    present: &[bool],
) -> (r: Option<Found>)
    requires
        own matches Some((d, p)) ==> valid_ucs2(p@),
        valid_ucs2(vendor@),
        present@.len() == loaders_spec().len(),
    ensures
        match r {
            Some(f) => spec_choose_loader(own_view(own), device, vendor@, present@) == Some(f@),
            None => spec_choose_loader(own_view(own), device, vendor@, present@) is None,
        },
{
    let names = loaders();
    let mut i: usize = 0;
    while i < present.len() && !present[i]
        invariant
            i <= present@.len(),
            first_present(present@.take(i as int)) is None,
        decreases present@.len() - i,
    {
        assert(present@.take(i + 1).drop_last() =~= present@.take(i as int));
        i = i + 1;
    }
    if i >= present.len() {
        assert(present@.take(i as int) =~= present@);
        return None;
    }
    proof {
        lemma_first_present_at(present@, i as int);
        lemma_loaders_valid();
    }
    let loader = &names[i];
    let path = loader_path(vendor, loader.as_slice());
    proof {
        let lp = spec_loader_path(vendor@, loader@);
        let pre = ucs2_units("\\EFI\\"@) + vendor@;
        let pre2 = pre + ucs2_units("\\"@);
        assert forall|k: int| 0 <= k < lp.len() implies #[trigger] lp[k] != 0 && !(0xD800 <= lp[k] <= 0xDFFF) by {
            if k < pre2.len() {
                assert(lp[k] == pre2[k]);
                if k < pre.len() {
                    assert(pre2[k] == pre[k]);
                    if k >= ucs2_units("\\EFI\\"@).len() {
                        assert(pre[k] == vendor@[k - ucs2_units("\\EFI\\"@).len()]);
                    }
                }
            } else {
                assert(lp[k] == loader@[k - pre2.len()]);
            }
        }
    }
    if is_self(own, device, path.as_slice()) {
        return None;
    }
    Some(found(device, vendor, loader.as_slice(), path))
}

proof fn lemma_first_present_at(present: Seq<bool>, i: int)
    requires
        0 <= i < present.len(),
        present[i],
        first_present(present.take(i)) is None,
    ensures
        first_present(present) == Some(i),
    decreases present.len(),
{
    if i == present.len() - 1 {
        assert(present.drop_last() =~= present.take(i));
    } else {
        assert(present.drop_last().take(i) =~= present.take(i));
        lemma_first_present_at(present.drop_last(), i);
    }
}

// ---------------------------------------------------------------------------
// Offering what was found alongside the configuration.
// ---------------------------------------------------------------------------

/// Whether an entry already boots `f`: a chainload of the same path on the
/// same volume, where an entry that names no volume means any.
pub open spec fn boots(e: EntryView, f: FoundView) -> bool {
    match e.target {
        TargetView::Chainload { path, device } => path == f.path && match device {
            Some(d) => d == f.device,
            None => true,
        },
        _ => false,
    }
}

pub open spec fn already_offered(es: Seq<EntryView>, f: FoundView) -> bool {
    exists|i: int| 0 <= i < es.len() && boots(#[trigger] es[i], f)
}

/// The entry a find becomes.
pub open spec fn entry_for(f: FoundView) -> EntryView {
    EntryView {
        title: f.title,
        target: TargetView::Chainload { path: f.path, device: Some(f.device) },
    }
}

/// The entries after offering each find in turn, skipping those an entry
/// (configured, or offered just before) already boots.
pub open spec fn offer_all(es: Seq<EntryView>, fs: Seq<FoundView>) -> Seq<EntryView>
    decreases fs.len(),
{
    if fs.len() == 0 {
        es
    } else {
        let before = offer_all(es, fs.drop_last());
        if already_offered(before, fs.last()) {
            before
        } else {
            before.push(entry_for(fs.last()))
        }
    }
}

pub open spec fn found_views(fs: Seq<Found>) -> Seq<FoundView> {
    fs.map_values(|f: Found| f@)
}

fn boots_exec(e: &Entry, f: &Found) -> (r: bool)
    ensures
        r == boots(e@, f@),
{
    match &e.target {
        Target::Chainload { path, device } => {
            units_eq(path.as_slice(), f.path.as_slice()) && match device {
                Some(d) => *d == f.device,
                None => true,
            }
        },
        _ => false,
    }
}

/// The entries a configuration has once `fs` are offered to it: with
/// `autodetect` off, none are.
pub open spec fn spec_offer(c: ConfigView, fs: Seq<FoundView>) -> ConfigView {
    if c.autodetect {
        ConfigView { entries: offer_all(c.entries, fs), ..c }
    } else {
        c
    }
}

/// Add what was found to the configuration, after what it names: a
/// configured entry stays where the user put it, and its `default` keeps
/// meaning what it meant. A find that an entry already boots is not added
/// twice. With `autodetect off` nothing is added.
pub fn offer(cfg: &mut Config, found: Vec<Found>)
    ensures
        final(cfg)@ == spec_offer(old(cfg)@, found_views(found@)),
{
    if !cfg.autodetect {
        return;
    }
    let ghost fs = found_views(found@);
    let ghost es0 = old(cfg)@.entries;
    for f in it: found
        invariant
            fs == found_views(it.seq()),
            cfg@ == (ConfigView { entries: offer_all(es0, fs.take(it.index() as int)), ..old(cfg)@ }),
    {
        let ghost i = it.index();
        assert(fs.take(i + 1).drop_last() =~= fs.take(i as int));
        assert(fs.take(i + 1).last() == f@);
        let n = cfg.entries.len();
        let mut j: usize = 0;
        let mut seen = false;
        while j < n && !seen
            invariant
                n == cfg.entries@.len(),
                j <= n,
                seen ==> already_offered(entries_view(cfg.entries@), f@),
                !seen ==> forall|k: int| 0 <= k < j ==> !boots(#[trigger] entries_view(cfg.entries@)[k], f@),
            decreases n - j + (if seen { 0int } else { 1int }),
        {
            if boots_exec(&cfg.entries[j], &f) {
                assert(boots(entries_view(cfg.entries@)[j as int], f@));
                seen = true;
            } else {
                j = j + 1;
            }
        }
        if !seen {
            let ghost before = cfg.entries@;
            let Found { title, device, path } = f;
            cfg.entries.push(Entry { title, target: Target::Chainload { path, device: Some(device) } });
            assert(entries_view(cfg.entries@) =~= entries_view(before).push(entry_for(fs.take(i + 1).last())));
        }
    }
    assert(fs.take(fs.len() as int) =~= fs);
}

/// Offering finds never moves or changes a configured entry: what the
/// configuration named stays first, in its order, so its default still
/// points at the entry it named.
pub proof fn lemma_offer_keeps_configured(es: Seq<EntryView>, fs: Seq<FoundView>)
    ensures
        offer_all(es, fs).len() >= es.len(),
        offer_all(es, fs).take(es.len() as int) == es,
    decreases fs.len(),
{
    if fs.len() > 0 {
        lemma_offer_keeps_configured(es, fs.drop_last());
        let before = offer_all(es, fs.drop_last());
        assert(before.push(entry_for(fs.last())).take(es.len() as int) =~= before.take(es.len() as int));
    }
}

/// After offering, every find is booted by some entry: either one that was
/// there already, or the one it became.
pub proof fn lemma_offer_covers(es: Seq<EntryView>, fs: Seq<FoundView>, i: int)
    requires
        0 <= i < fs.len(),
    ensures
        already_offered(offer_all(es, fs), fs[i]),
    decreases fs.len(),
{
    let before = offer_all(es, fs.drop_last());
    if i < fs.len() - 1 {
        lemma_offer_covers(es, fs.drop_last(), i);
        let k = choose|k: int| 0 <= k < before.len() && boots(#[trigger] before[k], fs.drop_last()[i]);
        if !already_offered(before, fs.last()) {
            assert(before.push(entry_for(fs.last()))[k] == before[k]);
        }
    } else {
        if !already_offered(before, fs.last()) {
            let after = before.push(entry_for(fs.last()));
            assert(boots(after[before.len() as int], fs[i]));
        }
    }
}

/// A find that nothing boots yet is added exactly once: offering the same
/// finds again changes nothing.
pub proof fn lemma_offer_idempotent(es: Seq<EntryView>, fs: Seq<FoundView>)
    ensures
        offer_all(offer_all(es, fs), fs) == offer_all(es, fs),
{
    let once = offer_all(es, fs);
    assert forall|i: int| 0 <= i < fs.len() implies already_offered(once, #[trigger] fs[i]) by {
        lemma_offer_covers(es, fs, i);
    }
    lemma_offer_nothing_new(once, fs, fs.len() as int);
    assert(fs.take(fs.len() as int) =~= fs);
}

proof fn lemma_offer_nothing_new(es: Seq<EntryView>, fs: Seq<FoundView>, n: int)
    requires
        0 <= n <= fs.len(),
        forall|i: int| 0 <= i < fs.len() ==> already_offered(es, #[trigger] fs[i]),
    ensures
        offer_all(es, fs.take(n)) == es,
    decreases n,
{
    if n > 0 {
        lemma_offer_nothing_new(es, fs, n - 1);
        assert(fs.take(n).drop_last() =~= fs.take(n - 1));
        assert(fs.take(n).last() == fs[n - 1]);
    }
}

} // verus!
