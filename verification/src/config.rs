//! What to boot, and from where: the `\bang.cfg` format.
//!
//! The format is lines of `directive argument`, blank lines and `#` comments
//! ignored:
//!
//! ```text
//!     timeout 5
//!     default Quark
//!
//!     entry Quark
//!         multiboot \kernel.bin
//!         modules   \drivers
//!
//!     entry UEFI Shell
//!         chainload \EFI\tools\Shell.efi
//!
//!     entry Fedora
//!         linux   \vmlinuz
//!         initrd  \initrd.img
//!         options root=/dev/sda2 ro
//! ```
//!
//! Anything unrecognised is skipped rather than refused: a bootloader that
//! will not start because of one bad line in its config cannot be fixed
//! without another one. Parsing therefore never fails; `parse` says exactly
//! which configuration any text describes.
//!
//! Paths are kept as the UCS-2 units UEFI names files with; a device is the
//! address of the firmware's handle for the volume.

use vstd::prelude::*;
use vstd::slice::slice_subrange;
use vstd::string::StrSliceExecFns;
use crate::text::{
    is_ws, skip_ws, trim_end, find_ws, find_char, parse_unsigned, skip_ws_exec, trim_end_exec,
    find_ws_exec, find_char_exec, chars_of, string_from_chars, parse_unsigned_exec,
    lemma_find_char_bounds,
};
use crate::ucs2::{ucs2_of, ucs2_units, ucs2_from_chars};

verus! {

/// How an entry is started.
pub enum Target {
    /// A Multiboot2 or Multiboot1 kernel, with an optional directory of modules.
    Multiboot { kernel: Vec<u16>, modules: Option<Vec<u16>> },
    /// Another UEFI application, started as though the firmware had.
    ///
    /// `device` is the volume it lives on, and `None` means the one Bang was
    /// loaded from — which is all a config file can name.
    Chainload { path: Vec<u16>, device: Option<usize> },
    /// A Linux bzImage through the EFI handover protocol.
    Linux { kernel: Vec<u16>, initrd: Option<Vec<u16>>, cmdline: String },
}

pub struct Entry {
    pub title: String,
    pub target: Target,
}

pub struct Config {
    /// Seconds to wait before booting the default. 0 boots at once.
    pub timeout: u64,
    pub default: usize,
    pub entries: Vec<Entry>,
    /// Whether to look around for loaders the config does not name.
    pub autodetect: bool,
}

/// What a [`Target`] says, as values.
pub enum TargetView {
    Multiboot { kernel: Seq<u16>, modules: Option<Seq<u16>> },
    Chainload { path: Seq<u16>, device: Option<usize> },
    Linux { kernel: Seq<u16>, initrd: Option<Seq<u16>>, cmdline: Seq<char> },
}

pub struct EntryView {
    pub title: Seq<char>,
    pub target: TargetView,
}

pub struct ConfigView {
    pub timeout: u64,
    pub default: usize,
    pub entries: Seq<EntryView>,
    pub autodetect: bool,
}

pub open spec fn opt_units(p: Option<Vec<u16>>) -> Option<Seq<u16>> {
    match p {
        Some(v) => Some(v@),
        None => None,
    }
}

impl View for Target {
    type V = TargetView;

    open spec fn view(&self) -> TargetView {
        match self {
            Target::Multiboot { kernel, modules } => TargetView::Multiboot {
                kernel: kernel@,
                modules: opt_units(*modules),
            },
            Target::Chainload { path, device } => TargetView::Chainload {
                path: path@,
                device: *device,
            },
            Target::Linux { kernel, initrd, cmdline } => TargetView::Linux {
                kernel: kernel@,
                initrd: opt_units(*initrd),
                cmdline: cmdline@,
            },
        }
    }
}

impl View for Entry {
    type V = EntryView;

    open spec fn view(&self) -> EntryView {
        EntryView { title: self.title@, target: self.target@ }
    }
}

pub open spec fn entries_view(es: Seq<Entry>) -> Seq<EntryView> {
    es.map_values(|e: Entry| e@)
}

impl View for Config {
    type V = ConfigView;

    open spec fn view(&self) -> ConfigView {
        ConfigView {
            timeout: self.timeout,
            default: self.default,
            entries: entries_view(self.entries@),
            autodetect: self.autodetect,
        }
    }
}

/// The configuration Bang had before it could be configured.
pub open spec fn builtin_view() -> ConfigView {
    ConfigView {
        timeout: 0,
        default: 0,
        autodetect: true,
        entries: seq![
            EntryView {
                title: "Quark"@,
                target: TargetView::Multiboot {
                    kernel: ucs2_units("\\kernel.bin"@),
                    modules: Some(ucs2_units("\\drivers"@)),
                },
            },
        ],
    }
}

/// A path from a literal that is known to convert.
fn literal_path(s: &str) -> (r: Vec<u16>)
    requires
        ucs2_of(s@) is Some,
    ensures
        r@ == ucs2_units(s@),
{
    let cs = chars_of(s);
    match ucs2_from_chars(cs.as_slice()) {
        Some(v) => v,
        None => {
            assert(false);
            Vec::new()
        },
    }
}

impl Config {
    /// What Bang did before it could be configured: boot `\kernel.bin` as a
    /// Multiboot kernel with the modules in `\drivers`, at once.
    pub fn builtin() -> (cfg: Self)
        ensures
            cfg@ == builtin_view(),
    {
        proof {
            reveal_strlit("\\kernel.bin");
            reveal_strlit("\\drivers");
        }
        let kernel = literal_path("\\kernel.bin");
        let modules = literal_path("\\drivers");
        let mut entries: Vec<Entry> = Vec::new();
        entries.push(
            Entry {
                title: String::from_str("Quark"),
                target: Target::Multiboot { kernel, modules: Some(modules) },
            },
        );
        let cfg = Config { timeout: 0, default: 0, autodetect: true, entries };
        assert(cfg@.entries =~= builtin_view().entries);
        cfg
    }
}

// ---------------------------------------------------------------------------
// The meaning of a configuration text.
// ---------------------------------------------------------------------------

/// What has been read so far: the configuration, and a default named by title
/// (which may name an entry declared later, so it is resolved at the end).
pub struct ParseState {
    pub cfg: ConfigView,
    pub default_title: Option<Seq<char>>,
}

/// Where parsing starts.
pub open spec fn initial_state() -> ParseState {
    ParseState {
        cfg: ConfigView { timeout: 5, default: 0, entries: seq![], autodetect: true },
        default_title: None,
    }
}

/// Whether an `autodetect` argument turns it off.
pub open spec fn says_off(arg: Seq<char>) -> bool {
    arg == "off"@ || arg == "no"@ || arg == "false"@ || arg == "0"@
}

/// An entry's target after a directive that applies to entries.
pub open spec fn apply_to_target(t: TargetView, dir: Seq<char>, arg: Seq<char>) -> TargetView {
    if dir == "multiboot"@ {
        match ucs2_of(arg) {
            Some(p) => TargetView::Multiboot { kernel: p, modules: None },
            None => t,
        }
    } else if dir == "modules"@ {
        match t {
            TargetView::Multiboot { kernel, modules } => TargetView::Multiboot {
                kernel,
                modules: ucs2_of(arg),
            },
            _ => t,
        }
    } else if dir == "chainload"@ {
        match ucs2_of(arg) {
            Some(p) => TargetView::Chainload { path: p, device: None },
            None => t,
        }
    } else if dir == "linux"@ {
        match ucs2_of(arg) {
            Some(p) => TargetView::Linux { kernel: p, initrd: None, cmdline: seq![] },
            None => t,
        }
    } else if dir == "initrd"@ {
        match t {
            TargetView::Linux { kernel, initrd, cmdline } => TargetView::Linux {
                kernel,
                initrd: ucs2_of(arg),
                cmdline,
            },
            _ => t,
        }
    } else if dir == "options"@ {
        match t {
            TargetView::Linux { kernel, initrd, cmdline } => TargetView::Linux {
                kernel,
                initrd,
                cmdline: arg,
            },
            _ => t,
        }
    } else {
        t
    }
}

/// The state after one `directive argument` line.
pub open spec fn apply_directive(st: ParseState, dir: Seq<char>, arg: Seq<char>) -> ParseState {
    let c = st.cfg;
    if dir == "timeout"@ {
        let v = match parse_unsigned(arg, u64::MAX as int) {
            Some(n) => n as u64,
            None => 5,
        };
        ParseState { cfg: ConfigView { timeout: v, ..c }, ..st }
    } else if dir == "autodetect"@ {
        ParseState { cfg: ConfigView { autodetect: !says_off(arg), ..c }, ..st }
    } else if dir == "default"@ {
        match parse_unsigned(arg, usize::MAX as int) {
            Some(n) => ParseState { cfg: ConfigView { default: n as usize, ..c }, ..st },
            None => ParseState { default_title: Some(arg), ..st },
        }
    } else if dir == "entry"@ {
        let e = EntryView {
            title: arg,
            target: TargetView::Multiboot { kernel: seq![], modules: None },
        };
        ParseState { cfg: ConfigView { entries: c.entries.push(e), ..c }, ..st }
    } else if c.entries.len() == 0 {
        st
    } else {
        let last = c.entries.last();
        let e = EntryView { title: last.title, target: apply_to_target(last.target, dir, arg) };
        ParseState {
            cfg: ConfigView { entries: c.entries.update(c.entries.len() - 1, e), ..c },
            ..st
        }
    }
}

/// The line `t[a..e]`: everything before a `#`, trimmed, split at its first
/// whitespace into a directive and a (trimmed) argument. An empty line
/// changes nothing.
pub open spec fn apply_line(t: Seq<char>, a: int, e: int, st: ParseState) -> ParseState {
    let h = find_char(t, a, e, '#');
    let s = skip_ws(t, a, h);
    let f = trim_end(t, s, h);
    if s >= f {
        st
    } else {
        let d = find_ws(t, s, f);
        let x = skip_ws(t, d, f);
        let y = trim_end(t, x, f);
        apply_directive(st, t.subrange(s, d), t.subrange(x, y))
    }
}

/// The state after the lines of `t` from index `a` on. Lines end at `\n`;
/// a `\r` before it is whitespace and goes with the trimming.
pub open spec fn apply_lines(t: Seq<char>, a: int, st: ParseState) -> ParseState
    decreases t.len() + 1 - a,
{
    if a < 0 || a >= t.len() {
        st
    } else {
        let e = find_char(t, a, t.len() as int, '\n');
        proof {
            lemma_find_char_bounds(t, a, t.len() as int, '\n');
        }
        apply_lines(t, e + 1, apply_line(t, a, e, st))
    }
}

/// An entry that names something to boot: a Multiboot entry needs a kernel.
pub open spec fn names_something(e: EntryView) -> bool {
    match e.target {
        TargetView::Multiboot { kernel, .. } => kernel.len() != 0,
        _ => true,
    }
}

/// [`names_something`], as a predicate to filter by.
pub open spec fn bootable() -> spec_fn(EntryView) -> bool {
    |e: EntryView| names_something(e)
}

/// The index of the first entry from `i` on titled `title`.
pub open spec fn find_title(es: Seq<EntryView>, title: Seq<char>, i: int) -> Option<int>
    decreases es.len() - i,
{
    if i < 0 || i >= es.len() {
        None
    } else if es[i].title == title {
        Some(i)
    } else {
        find_title(es, title, i + 1)
    }
}

/// The configuration once every line is read: entries that name nothing are
/// dropped, a default given by title becomes the position of the first entry
/// with that title (and is left alone if there is none), and a default past
/// the end falls back to the first entry.
pub open spec fn finish(st: ParseState) -> ConfigView {
    let es = st.cfg.entries.filter(bootable());
    let d = match st.default_title {
        Some(title) => match find_title(es, title, 0) {
            Some(i) => i as usize,
            None => st.cfg.default,
        },
        None => st.cfg.default,
    };
    ConfigView { entries: es, default: if d >= es.len() { 0 } else { d }, ..st.cfg }
}

/// The configuration that the text `t` describes.
pub open spec fn spec_parse(t: Seq<char>) -> ConfigView {
    finish(apply_lines(t, 0, initial_state()))
}

/// The directive and argument of a line: trimmed, split at the first
/// whitespace, the argument trimmed again.
pub open spec fn spec_split(l: Seq<char>) -> (Seq<char>, Seq<char>) {
    let s = skip_ws(l, 0, l.len() as int);
    let f = trim_end(l, s, l.len() as int);
    let d = find_ws(l, s, f);
    let x = skip_ws(l, d, f);
    (l.subrange(s, d), l.subrange(x, trim_end(l, x, f)))
}

// ---------------------------------------------------------------------------
// Reading it.
// ---------------------------------------------------------------------------

/// The boundaries that [`spec_split`] cuts `t[a..b]` at: the directive is
/// `t[s..d]` and the argument `t[x..y]`.
fn split_range(t: &Vec<char>, a: usize, b: usize) -> (r: (usize, usize, usize, usize))
    requires
        a <= b <= t@.len(),
    ensures
        ({
            let (s, d, x, y) = r;
            let f = trim_end(t@, s as int, b as int);
            &&& s == skip_ws(t@, a as int, b as int)
            &&& d == find_ws(t@, s as int, f)
            &&& x == skip_ws(t@, d as int, f)
            &&& y == trim_end(t@, x as int, f)
            &&& a <= s <= d <= x <= y <= b
        }),
{
    let s = skip_ws_exec(t, a, b);
    let f = trim_end_exec(t, s, b);
    let d = find_ws_exec(t, s, f);
    let x = skip_ws_exec(t, d, f);
    let y = trim_end_exec(t, x, f);
    (s, d, x, y)
}

/// Split a line into its directive and the rest, both trimmed.
pub fn split(line: &str) -> (r: (&str, &str))
    ensures
        r.0@ == spec_split(line@).0,
        r.1@ == spec_split(line@).1,
{
    let t = chars_of(line);
    let n = t.len();
    let (s, d, x, y) = split_range(&t, 0, n);
    (line.substring_char(s, d), line.substring_char(x, y))
}

/// Whether `t[a..b]` is exactly the text `lit`.
fn range_is(t: &Vec<char>, a: usize, b: usize, lit: &str) -> (r: bool)
    requires
        a <= b <= t@.len(),
    ensures
        r == (t@.subrange(a as int, b as int) == lit@),
{
    let n = lit.unicode_len();
    if b - a != n {
        return false;
    }
    let mut i: usize = 0;
    while i < n
        invariant
            a <= b <= t@.len(),
            b - a == n,
            n == lit@.len(),
            0 <= i <= n,
            forall|k: int| 0 <= k < i ==> t@[a + k] == lit@[k],
        decreases n - i,
    {
        if t[a + i] != lit.get_char(i) {
            assert(t@.subrange(a as int, b as int)[i as int] != lit@[i as int]);
            return false;
        }
        i = i + 1;
    }
    assert(t@.subrange(a as int, b as int) =~= lit@);
    true
}

/// The state of a parse in progress, as values.
pub open spec fn state_view(cfg: &Config, default_title: &Option<String>) -> ParseState {
    ParseState {
        cfg: cfg@,
        default_title: match default_title {
            Some(s) => Some(s@),
            None => None,
        },
    }
}

/// A path from the config, as UEFI wants it, or `None` if it cannot be one.
fn path(arg: &[char]) -> (r: Option<Vec<u16>>)
    ensures
        opt_units(r) == ucs2_of(arg@),
{
    ucs2_from_chars(arg)
}

/// Apply a directive that is about the entry being declared.
fn retarget(t: Target, dir: (usize, usize), text: &Vec<char>, arg: &[char]) -> (r: Target)
    requires
        dir.0 <= dir.1 <= text@.len(),
    ensures
        r@ == apply_to_target(t@, text@.subrange(dir.0 as int, dir.1 as int), arg@),
{
    let (s, d) = dir;
    if range_is(text, s, d, "multiboot") {
        match path(arg) {
            Some(p) => Target::Multiboot { kernel: p, modules: None },
            None => t,
        }
    } else if range_is(text, s, d, "modules") {
        match t {
            Target::Multiboot { kernel, modules: _ } => Target::Multiboot {
                kernel,
                modules: path(arg),
            },
            other => other,
        }
    } else if range_is(text, s, d, "chainload") {
        match path(arg) {
            Some(p) => Target::Chainload { path: p, device: None },
            None => t,
        }
    } else if range_is(text, s, d, "linux") {
        match path(arg) {
            Some(p) => {
                let r = Target::Linux { kernel: p, initrd: None, cmdline: String::new() };
                assert(r@ == TargetView::Linux { kernel: p@, initrd: None, cmdline: seq![] });
                r
            },
            None => t,
        }
    } else if range_is(text, s, d, "initrd") {
        match t {
            Target::Linux { kernel, initrd: _, cmdline } => Target::Linux {
                kernel,
                initrd: path(arg),
                cmdline,
            },
            other => other,
        }
    } else if range_is(text, s, d, "options") {
        match t {
            Target::Linux { kernel, initrd, cmdline: _ } => Target::Linux {
                kernel,
                initrd,
                cmdline: string_from_chars(arg),
            },
            other => other,
        }
    } else {
        t
    }
}

/// Apply the line `t[a..e]` to the parse in progress.
fn parse_line(
    t: &Vec<char>,
    a: usize,
    e: usize,
    cfg: &mut Config,
    default_title: &mut Option<String>,
)
    requires
        a <= e <= t@.len(),
    ensures
        state_view(final(cfg), final(default_title)) == apply_line(
            t@,
            a as int,
            e as int,
            state_view(old(cfg), old(default_title)),
        ),
{
    let h = find_char_exec(t, a, e, '#');
    let s = skip_ws_exec(t, a, h);
    let f = trim_end_exec(t, s, h);
    if s >= f {
        // Nothing but whitespace and comment.
        return;
    }
    let d = find_ws_exec(t, s, f);
    let x = skip_ws_exec(t, d, f);
    let y = trim_end_exec(t, x, f);
    let ghost dir = t@.subrange(s as int, d as int);
    let ghost argv = t@.subrange(x as int, y as int);
    let arg = slice_subrange(t.as_slice(), x, y);
    if range_is(t, s, d, "timeout") {
        cfg.timeout = match parse_unsigned_exec(t, x, y, u64::MAX) {
            Some(v) => v,
            None => 5,
        };
    } else if range_is(t, s, d, "autodetect") {
        let off = range_is(t, x, y, "off") || range_is(t, x, y, "no") || range_is(
            t,
            x,
            y,
            "false",
        ) || range_is(t, x, y, "0");
        cfg.autodetect = !off;
    } else if range_is(t, s, d, "default") {
        match parse_unsigned_exec(t, x, y, usize::MAX as u64) {
            Some(n) => {
                cfg.default = n as usize;
            },
            None => {
                *default_title = Some(string_from_chars(arg));
            },
        }
    } else if range_is(t, s, d, "entry") {
        let ghost before = cfg.entries@;
        cfg.entries.push(
            Entry {
                title: string_from_chars(arg),
                target: Target::Multiboot { kernel: Vec::new(), modules: None },
            },
        );
        assert(entries_view(cfg.entries@) =~= entries_view(before).push(
            EntryView { title: argv, target: TargetView::Multiboot { kernel: seq![], modules: None } },
        ));
    } else if cfg.entries.len() == 0 {
    } else {
        let ghost before = cfg.entries@;
        let last = cfg.entries.pop().unwrap();
        let Entry { title, target } = last;
        let target = retarget(target, (s, d), t, arg);
        cfg.entries.push(Entry { title, target });
        assert(entries_view(cfg.entries@) =~= entries_view(before).update(
            before.len() - 1,
            EntryView {
                title: before.last()@.title,
                target: apply_to_target(before.last()@.target, dir, argv),
            },
        ));
    }
}

/// Read the configuration a text describes.
///
/// Never fails: whatever cannot be understood is skipped.
pub fn parse(text: &str) -> (cfg: Config)
    ensures
        cfg@ == spec_parse(text@),
{
    let t = chars_of(text);
    let n = t.len();
    let mut cfg = Config { timeout: 5, default: 0, entries: Vec::new(), autodetect: true };
    let mut default_title: Option<String> = None;
    assert(cfg@.entries =~= seq![]);
    let mut a: usize = 0;
    while a < n
        invariant
            n == t@.len(),
            t@ == text@,
            a <= n,
            spec_parse(text@) == finish(
                apply_lines(t@, a as int, state_view(&cfg, &default_title)),
            ),
        decreases n - a,
    {
        let e = find_char_exec(&t, a, n, '\n');
        let ghost st0 = state_view(&cfg, &default_title);
        parse_line(&t, a, e, &mut cfg, &mut default_title);
        assert(apply_lines(t@, a as int, st0) == apply_lines(t@, e + 1, state_view(&cfg, &default_title)));
        if e >= n {
            a = n;
        } else {
            a = e + 1;
        }
    }
    finish_exec(cfg, default_title)
}

/// Drop entries that name nothing and settle the default.
fn finish_exec(cfg: Config, default_title: Option<String>) -> (r: Config)
    ensures
        r@ == finish(state_view(&cfg, &default_title)),
{
    let Config { timeout, default, entries, autodetect } = cfg;
    let ghost all = entries_view(entries@);
    let ghost keep = bootable();
    let mut kept: Vec<Entry> = Vec::new();
    for e in it: entries
        invariant
            keep == bootable(),
            all == entries_view(it.seq()),
            entries_view(kept@) == all.take(it.index() as int).filter(keep),
    {
        let ghost i = it.index();
        reveal_with_fuel(Seq::filter, 1);
        assert(all.take(i + 1).drop_last() =~= all.take(i as int));
        assert(all[i as int] == e@);
        assert(all.take(i + 1).last() == all[i as int]);
        assert(all.take(i + 1).filter(keep) == if keep(all[i as int]) {
            all.take(i as int).filter(keep).push(all[i as int])
        } else {
            all.take(i as int).filter(keep)
        });
        let keep_it = match &e.target {
            Target::Multiboot { kernel, .. } => kernel.len() != 0,
            _ => true,
        };
        let ghost before = kept@;
        assert(keep_it == keep(e@));
        if keep_it {
            kept.push(e);
            assert(entries_view(kept@) =~= entries_view(before).push(all[i as int]));
        }
    }
    assert(all.take(all.len() as int) =~= all);
    let ghost es = all.filter(keep);
    let mut d = default;
    match &default_title {
        Some(title) => {
            let mut i: usize = 0;
            let len = kept.len();
            while i < len && !(kept[i].title == *title)
                invariant
                    len == kept@.len(),
                    entries_view(kept@) == es,
                    i <= len,
                    find_title(es, title@, i as int) == find_title(es, title@, 0),
                decreases len - i,
            {
                i = i + 1;
            }
            if i < len {
                d = i;
            }
        },
        None => {},
    }
    if d >= kept.len() {
        d = 0;
    }
    Config { timeout, default: d, entries: kept, autodetect }
}

// ---------------------------------------------------------------------------
// What every parse gives.
// ---------------------------------------------------------------------------

/// Whatever the text, the default is an entry there is (or 0 when there are
/// none), and every entry names something to boot.
pub proof fn lemma_parse_well_formed(t: Seq<char>)
    ensures
        spec_parse(t).default < spec_parse(t).entries.len() || (spec_parse(t).entries.len() == 0
            && spec_parse(t).default == 0),
        forall|i: int|
            0 <= i < spec_parse(t).entries.len() ==> names_something(
                #[trigger] spec_parse(t).entries[i],
            ),
{
    let st = apply_lines(t, 0, initial_state());
    let es = st.cfg.entries;
    assert forall|i: int| 0 <= i < es.filter(bootable()).len() implies names_something(
        #[trigger] es.filter(bootable())[i],
    ) by {
        es.lemma_filter_pred(bootable(), i);
    }
}

/// The largest configuration file Bang will read: a config is a page or two
/// of text, and a file claiming to be enormous is not one.
pub const MAX_CONFIG_SIZE: usize = 65536;

/// Whether a configuration file of `size` bytes is worth reading: it is not
/// empty, and not larger than [`MAX_CONFIG_SIZE`].
pub fn worth_reading(size: usize) -> (r: bool)
    ensures
        r == !(size == 0 || size > MAX_CONFIG_SIZE),
{
    !(size == 0 || size > MAX_CONFIG_SIZE)
}

/// The configuration a `\bang.cfg` of `size` bytes whose contents are
/// `contents` describes: none if the file is empty or larger than
/// [`MAX_CONFIG_SIZE`], none if it is not UTF-8, else what its text says.
pub open spec fn spec_from_file(size: usize, contents: Seq<u8>) -> Option<ConfigView> {
    if size == 0 || size > MAX_CONFIG_SIZE {
        None
    } else if !vstd::utf8::valid_utf8(contents) {
        None
    } else {
        Some(spec_parse(vstd::utf8::decode_utf8(contents)))
    }
}

/// The text that `bytes` encode, if they are valid UTF-8.
///
/// Trusted: `core::str::from_utf8`, which std documents as succeeding exactly
/// when the bytes are valid UTF-8, and then as viewing those bytes as a `str`.
#[verifier::external_body]
fn utf8_text(bytes: &[u8]) -> (r: Option<&str>)
    ensures
        r is Some <==> vstd::utf8::valid_utf8(bytes@),
        r matches Some(s) ==> s@ == vstd::utf8::decode_utf8(bytes@),
{
    core::str::from_utf8(bytes).ok()
}

/// Read the configuration file: `size` is what the firmware says its size
/// is, `contents` what was read of it.
pub fn from_file(size: usize, contents: &[u8]) -> (r: Option<Config>)
    ensures
        match r {
            Some(c) => spec_from_file(size, contents@) == Some(c@),
            None => spec_from_file(size, contents@) is None,
        },
{
    if !worth_reading(size) {
        return None;
    }
    match utf8_text(contents) {
        Some(text) => Some(parse(text)),
        None => None,
    }
}

/// A directive Bang does not know changes nothing: it is skipped, not refused.
pub proof fn lemma_unknown_directive_ignored(st: ParseState, dir: Seq<char>, arg: Seq<char>)
    requires
        dir != "timeout"@,
        dir != "autodetect"@,
        dir != "default"@,
        dir != "entry"@,
        dir != "multiboot"@,
        dir != "modules"@,
        dir != "chainload"@,
        dir != "linux"@,
        dir != "initrd"@,
        dir != "options"@,
    ensures
        apply_directive(st, dir, arg) == st,
{
    if st.cfg.entries.len() > 0 {
        let c = st.cfg;
        let last = c.entries.last();
        assert(c.entries.update(c.entries.len() - 1, EntryView { title: last.title, target: last.target }) =~= c.entries);
    }
}

proof fn lemma_find_char_stops_at(t: Seq<char>, a: int, b: int, p: int, c: char)
    requires
        a <= p < b,
        forall|k: int| a <= k < p ==> #[trigger] t[k] != c,
        t[p] == c,
    ensures
        find_char(t, a, b, c) == p,
    decreases p - a,
{
    if a < p {
        lemma_find_char_stops_at(t, a + 1, b, p, c);
    }
}

/// A line that is blank up to a `#` is a comment and changes nothing.
pub proof fn lemma_comment_line_ignored(t: Seq<char>, a: int, e: int, p: int, st: ParseState)
    requires
        0 <= a <= p < e <= t.len(),
        forall|k: int| a <= k < p ==> is_ws(#[trigger] t[k]),
        t[p] == '#',
    ensures
        apply_line(t, a, e, st) == st,
{
    assert forall|k: int| a <= k < p implies #[trigger] t[k] != '#' by {
        assert(is_ws(t[k]));
    }
    lemma_find_char_stops_at(t, a, e, p, '#');
    let h = find_char(t, a, e, '#');
    assert(h == p);
    if a < p {
        lemma_skip_ws_all(t, a, p);
    }
}

proof fn lemma_skip_ws_all(t: Seq<char>, a: int, b: int)
    requires
        a <= b,
        forall|k: int| a <= k < b ==> is_ws(#[trigger] t[k]),
    ensures
        skip_ws(t, a, b) == b,
    decreases b - a,
{
    if a < b {
        lemma_skip_ws_all(t, a + 1, b);
    }
}

/// What `split` gives is trimmed: the directive is a run of non-whitespace,
/// and the argument neither starts nor ends with whitespace.
pub proof fn lemma_split_trimmed(l: Seq<char>)
    ensures
        forall|i: int| 0 <= i < spec_split(l).0.len() ==> !is_ws(#[trigger] spec_split(l).0[i]),
        spec_split(l).1.len() > 0 ==> !is_ws(spec_split(l).1[0]) && !is_ws(spec_split(l).1.last()),
{
    let n = l.len() as int;
    let s = skip_ws(l, 0, n);
    crate::text::lemma_skip_ws_bounds(l, 0, n);
    let f = trim_end(l, s, n);
    crate::text::lemma_trim_end_bounds(l, s, n);
    let d = find_ws(l, s, f);
    lemma_find_ws_prefix(l, s, f);
    let x = skip_ws(l, d, f);
    crate::text::lemma_skip_ws_bounds(l, d, f);
    let y = trim_end(l, x, f);
    crate::text::lemma_trim_end_bounds(l, x, f);
    lemma_trimmed_ends(l, d, f);
    assert forall|i: int| 0 <= i < spec_split(l).0.len() implies !is_ws(#[trigger] spec_split(l).0[i]) by {
        assert(spec_split(l).0[i] == l[s + i]);
    }
    let arg = spec_split(l).1;
    assert(arg == l.subrange(x, y));
    if arg.len() > 0 {
        assert(arg[0] == l[x]);
        assert(arg.last() == l[y - 1]);
    }
}

proof fn lemma_find_ws_prefix(t: Seq<char>, a: int, b: int)
    requires
        a <= b,
    ensures
        a <= find_ws(t, a, b) <= b,
        forall|k: int| a <= k < find_ws(t, a, b) ==> !is_ws(#[trigger] t[k]),
    decreases b - a,
{
    if a < b && !is_ws(t[a]) {
        lemma_find_ws_prefix(t, a + 1, b);
    }
}

/// Trimming `t[x..f]` leaves a range that is empty or starts and ends with
/// something other than whitespace.
proof fn lemma_trimmed_ends(t: Seq<char>, x: int, f: int)
    requires
        x <= f,
    ensures
        skip_ws(t, x, f) < trim_end(t, skip_ws(t, x, f), f) ==> !is_ws(t[skip_ws(t, x, f)])
            && !is_ws(t[trim_end(t, skip_ws(t, x, f), f) - 1]),
    decreases f - x,
{
    if x < f && is_ws(t[x]) {
        lemma_trimmed_ends(t, x + 1, f);
    } else {
        lemma_trim_end_last(t, x, f);
    }
}

proof fn lemma_trim_end_last(t: Seq<char>, a: int, b: int)
    requires
        a <= b,
    ensures
        a < trim_end(t, a, b) ==> !is_ws(t[trim_end(t, a, b) - 1]),
    decreases b - a,
{
    if a < b && is_ws(t[b - 1]) {
        lemma_trim_end_last(t, a, b - 1);
    }
}

// ---------------------------------------------------------------------------
// Lines are read one at a time: what a text means, line by line.
// ---------------------------------------------------------------------------

/// What a single line `l` (without its `\n`) does to the parse in progress.
pub open spec fn line_effect(l: Seq<char>, st: ParseState) -> ParseState {
    apply_line(l, 0, l.len() as int, st)
}

proof fn lemma_shift_find_char(t: Seq<char>, off: int, l: Seq<char>, a: int, b: int, c: char)
    requires
        0 <= off,
        off + l.len() <= t.len(),
        l == t.subrange(off, off + l.len()),
        0 <= a <= b <= l.len(),
    ensures
        find_char(t, a + off, b + off, c) == find_char(l, a, b, c) + off,
    decreases b - a,
{
    if a < b {
        assert(t[a + off] == l[a]);
        lemma_shift_find_char(t, off, l, a + 1, b, c);
    }
}

proof fn lemma_shift_skip_ws(t: Seq<char>, off: int, l: Seq<char>, a: int, b: int)
    requires
        0 <= off,
        off + l.len() <= t.len(),
        l == t.subrange(off, off + l.len()),
        0 <= a <= b <= l.len(),
    ensures
        skip_ws(t, a + off, b + off) == skip_ws(l, a, b) + off,
    decreases b - a,
{
    if a < b {
        assert(t[a + off] == l[a]);
        lemma_shift_skip_ws(t, off, l, a + 1, b);
    }
}

proof fn lemma_shift_find_ws(t: Seq<char>, off: int, l: Seq<char>, a: int, b: int)
    requires
        0 <= off,
        off + l.len() <= t.len(),
        l == t.subrange(off, off + l.len()),
        0 <= a <= b <= l.len(),
    ensures
        find_ws(t, a + off, b + off) == find_ws(l, a, b) + off,
    decreases b - a,
{
    if a < b {
        assert(t[a + off] == l[a]);
        lemma_shift_find_ws(t, off, l, a + 1, b);
    }
}

proof fn lemma_shift_trim_end(t: Seq<char>, off: int, l: Seq<char>, a: int, b: int)
    requires
        0 <= off,
        off + l.len() <= t.len(),
        l == t.subrange(off, off + l.len()),
        0 <= a <= b <= l.len(),
    ensures
        trim_end(t, a + off, b + off) == trim_end(l, a, b) + off,
    decreases b - a,
{
    if a < b {
        assert(t[b - 1 + off] == l[b - 1]);
        lemma_shift_trim_end(t, off, l, a, b - 1);
    }
}

/// A line means the same wherever it stands: `apply_line` reads nothing but
/// `t[a..e]`.
proof fn lemma_line_local(t: Seq<char>, a: int, e: int, st: ParseState)
    requires
        0 <= a <= e <= t.len(),
    ensures
        apply_line(t, a, e, st) == line_effect(t.subrange(a, e), st),
{
    let l = t.subrange(a, e);
    let n = e - a;
    lemma_shift_find_char(t, a, l, 0, n, '#');
    let hl = find_char(l, 0, n, '#');
    crate::text::lemma_find_char_bounds(l, 0, n, '#');
    lemma_shift_skip_ws(t, a, l, 0, hl);
    let sl = skip_ws(l, 0, hl);
    crate::text::lemma_skip_ws_bounds(l, 0, hl);
    lemma_shift_trim_end(t, a, l, sl, hl);
    let fl = trim_end(l, sl, hl);
    crate::text::lemma_trim_end_bounds(l, sl, hl);
    if sl < fl {
        lemma_shift_find_ws(t, a, l, sl, fl);
        let dl = find_ws(l, sl, fl);
        lemma_find_ws_prefix(l, sl, fl);
        lemma_shift_skip_ws(t, a, l, dl, fl);
        let xl = skip_ws(l, dl, fl);
        crate::text::lemma_skip_ws_bounds(l, dl, fl);
        lemma_shift_trim_end(t, a, l, xl, fl);
        let yl = trim_end(l, xl, fl);
        crate::text::lemma_trim_end_bounds(l, xl, fl);
        assert(t.subrange(sl + a, dl + a) =~= l.subrange(sl, dl));
        assert(t.subrange(xl + a, yl + a) =~= l.subrange(xl, yl));
    }
}

proof fn lemma_find_char_none(t: Seq<char>, a: int, b: int, c: char)
    requires
        a <= b,
        forall|k: int| a <= k < b ==> #[trigger] t[k] != c,
    ensures
        find_char(t, a, b, c) == b,
    decreases b - a,
{
    if a < b {
        lemma_find_char_none(t, a + 1, b, c);
    }
}

/// Where `c` is found before `b`, looking further does not change it.
proof fn lemma_find_char_extend(t: Seq<char>, a: int, b: int, b2: int, c: char)
    requires
        a <= b <= b2,
        find_char(t, a, b, c) < b,
    ensures
        find_char(t, a, b2, c) == find_char(t, a, b, c),
    decreases b - a,
{
    if t[a] != c {
        lemma_find_char_extend(t, a + 1, b, b2, c);
    }
}

/// Something at `p` in `[a, b)` is found at or before `p`.
proof fn lemma_find_char_found(t: Seq<char>, a: int, b: int, p: int, c: char)
    requires
        a <= p < b,
        t[p] == c,
    ensures
        a <= find_char(t, a, b, c) <= p,
    decreases p - a,
{
    if a < p && t[a] != c {
        lemma_find_char_found(t, a + 1, b, p, c);
    }
}

/// The lines of `x`, read after other text, mean what they mean alone.
proof fn lemma_lines_suffix(p: Seq<char>, x: Seq<char>, a: int, st: ParseState)
    requires
        0 <= a,
    ensures
        apply_lines(p + x, a + p.len(), st) == apply_lines(x, a, st),
    decreases x.len() + 1 - a,
{
    let t = p + x;
    let k = p.len() as int;
    if a < x.len() {
        assert(x =~= t.subrange(k, k + x.len()));
        lemma_shift_find_char(t, k, x, a, x.len() as int, '\n');
        let e = find_char(x, a, x.len() as int, '\n');
        crate::text::lemma_find_char_bounds(x, a, x.len() as int, '\n');
        lemma_line_local(t, a + k, e + k, st);
        lemma_line_local(x, a, e, st);
        assert(t.subrange(a + k, e + k) =~= x.subrange(a, e));
        lemma_lines_suffix(p, x, e + 1, apply_line(x, a, e, st));
    }
}

/// The lines of a text that ends with a newline, followed by more text: the
/// first text's lines are read, then the rest's.
proof fn lemma_lines_prefix(p: Seq<char>, x: Seq<char>, a: int, st: ParseState)
    requires
        p.len() == 0 || p.last() == '\n',
        0 <= a <= p.len(),
    ensures
        apply_lines(p + x, a, st) == apply_lines(p + x, p.len() as int, apply_lines(p, a, st)),
    decreases p.len() - a,
{
    let t = p + x;
    let k = p.len() as int;
    if a < k {
        lemma_find_char_found(p, a, k, k - 1, '\n');
        let e = find_char(p, a, k, '\n');
        assert(p =~= t.subrange(0, k));
        lemma_shift_find_char(t, 0, p, a, k, '\n');
        lemma_find_char_extend(t, a, k, t.len() as int, '\n');
        lemma_line_local(t, a, e, st);
        lemma_line_local(p, a, e, st);
        assert(t.subrange(a, e) =~= p.subrange(a, e));
        lemma_lines_prefix(p, x, e + 1, apply_line(p, a, e, st));
    }
}

/// Reading `p + x`, where `p` ends a line, is reading `p`, then `x`.
proof fn lemma_lines_concat(p: Seq<char>, x: Seq<char>, st: ParseState)
    requires
        p.len() == 0 || p.last() == '\n',
    ensures
        apply_lines(p + x, 0, st) == apply_lines(x, 0, apply_lines(p, 0, st)),
{
    lemma_lines_prefix(p, x, 0, st);
    lemma_lines_suffix(p, x, 0, apply_lines(p, 0, st));
}

/// A text of one line, with or without its newline, is read as that line.
proof fn lemma_single_line(l: Seq<char>, st: ParseState)
    requires
        forall|k: int| 0 <= k < l.len() ==> #[trigger] l[k] != '\n',
    ensures
        apply_lines(l, 0, st) == line_effect(l, st),
        apply_lines(l.push('\n'), 0, st) == line_effect(l, st),
{
    let n = l.len() as int;
    if n > 0 {
        lemma_find_char_none(l, 0, n, '\n');
    } else {
        assert(apply_line(l, 0, 0, st) == st);
    }
    let lp = l.push('\n');
    assert forall|k: int| 0 <= k < n implies #[trigger] lp[k] != '\n' by {
        assert(lp[k] == l[k]);
    }
    lemma_find_char_stops_at(lp, 0, n + 1, n, '\n');
    lemma_line_local(lp, 0, n, st);
    assert(lp.subrange(0, n) =~= l);
    assert(l.subrange(0, n) =~= l);
    lemma_line_local(l, 0, n, st);
    let st1 = apply_line(lp, 0, n, st);
    assert(apply_lines(lp, n + 1, st1) == st1);
    assert(apply_lines(lp, 0, st) == apply_lines(lp, n + 1, st1));
    if n > 0 {
        let st2 = apply_line(l, 0, n, st);
        assert(apply_lines(l, n + 1, st2) == st2);
        assert(apply_lines(l, 0, st) == apply_lines(l, n + 1, st2));
    }
}

/// No `\n` in `l`: it is (part of) one line.
pub open spec fn no_newline(l: Seq<char>) -> bool {
    forall|k: int| 0 <= k < l.len() ==> #[trigger] l[k] != '\n'
}

/// `p` is empty or ends a line, so what follows it starts one.
pub open spec fn ends_line(p: Seq<char>) -> bool {
    p.len() == 0 || p.last() == '\n'
}

/// One of the directives Bang knows.
pub open spec fn known_directive(d: Seq<char>) -> bool {
    ||| d == "timeout"@
    ||| d == "autodetect"@
    ||| d == "default"@
    ||| d == "entry"@
    ||| d == "multiboot"@
    ||| d == "modules"@
    ||| d == "chainload"@
    ||| d == "linux"@
    ||| d == "initrd"@
    ||| d == "options"@
}

/// A blank line, or a comment: nothing but whitespace before a `#` or the end.
pub open spec fn is_blank_or_comment(l: Seq<char>) -> bool {
    let s = skip_ws(l, 0, l.len() as int);
    s == l.len() || l[s] == '#'
}

/// A line without a comment whose directive Bang does not know.
pub open spec fn is_unknown_directive_line(l: Seq<char>) -> bool {
    &&& forall|k: int| 0 <= k < l.len() ==> #[trigger] l[k] != '#'
    &&& !known_directive(spec_split(l).0)
}

/// A line the parse skips: blank, a comment, or an unknown directive.
pub open spec fn skipped_line(l: Seq<char>) -> bool {
    no_newline(l) && (is_blank_or_comment(l) || is_unknown_directive_line(l))
}

proof fn lemma_skip_ws_prefix(t: Seq<char>, a: int, b: int)
    requires
        a <= b,
    ensures
        forall|k: int| a <= k < skip_ws(t, a, b) ==> is_ws(#[trigger] t[k]),
    decreases b - a,
{
    if a < b && is_ws(t[a]) {
        lemma_skip_ws_prefix(t, a + 1, b);
    }
}

proof fn lemma_find_char_prefix(t: Seq<char>, a: int, b: int, c: char)
    requires
        a <= b,
    ensures
        forall|k: int| a <= k < find_char(t, a, b, c) ==> #[trigger] t[k] != c,
    decreases b - a,
{
    if a < b && t[a] != c {
        lemma_find_char_prefix(t, a + 1, b, c);
    }
}

/// A skipped line changes nothing.
proof fn lemma_skipped_line_effect(l: Seq<char>, st: ParseState)
    requires
        skipped_line(l),
    ensures
        line_effect(l, st) == st,
{
    let n = l.len() as int;
    let s0 = skip_ws(l, 0, n);
    crate::text::lemma_skip_ws_bounds(l, 0, n);
    lemma_skip_ws_prefix(l, 0, n);
    if is_blank_or_comment(l) {
        if s0 < n {
            lemma_comment_line_ignored(l, 0, n, s0, st);
        } else {
            assert forall|k: int| 0 <= k < n implies #[trigger] l[k] != '#' by {
                assert(is_ws(l[k]));
            }
            lemma_find_char_none(l, 0, n, '#');
        }
    } else {
        lemma_find_char_none(l, 0, n, '#');
        let f0 = trim_end(l, s0, n);
        if s0 < f0 {
            let d = find_ws(l, s0, f0);
            let x = skip_ws(l, d, f0);
            lemma_unknown_directive_ignored(st, l.subrange(s0, d), l.subrange(x, trim_end(l, x, f0)));
        }
    }
}

/// Reading a line stops at its `#`: what follows it is never looked at.
proof fn lemma_cut_at_hash(t: Seq<char>, a: int, e: int, st: ParseState)
    requires
        0 <= a <= e <= t.len(),
    ensures
        apply_line(t, a, e, st) == apply_line(t, a, find_char(t, a, e, '#'), st),
{
    let h = find_char(t, a, e, '#');
    crate::text::lemma_find_char_bounds(t, a, e, '#');
    lemma_find_char_prefix(t, a, e, '#');
    lemma_find_char_none(t, a, h, '#');
}

/// A `# ...` after a line means nothing.
proof fn lemma_comment_suffix_effect(l: Seq<char>, c: Seq<char>, st: ParseState)
    requires
        c.len() > 0,
        c[0] == '#',
    ensures
        line_effect(l + c, st) == line_effect(l, st),
{
    let n = l.len() as int;
    let lc = l + c;
    let m = lc.len() as int;
    assert(l =~= lc.subrange(0, n));
    lemma_shift_find_char(lc, 0, l, 0, n, '#');
    let h = find_char(l, 0, n, '#');
    crate::text::lemma_find_char_bounds(l, 0, n, '#');
    if h < n {
        lemma_find_char_extend(lc, 0, n, m, '#');
    } else {
        lemma_find_char_prefix(l, 0, n, '#');
        assert forall|k: int| 0 <= k < n implies #[trigger] lc[k] != '#' by {
            assert(lc[k] == l[k]);
        }
        lemma_find_char_stops_at(lc, 0, m, n, '#');
    }
    assert(find_char(lc, 0, m, '#') == h);
    lemma_cut_at_hash(lc, 0, m, st);
    lemma_cut_at_hash(l, 0, n, st);
    lemma_line_local(lc, 0, h, st);
    lemma_line_local(l, 0, h, st);
    assert(lc.subrange(0, h) =~= l.subrange(0, h));
}

/// Blank lines, comments and lines with a directive Bang does not know may
/// stand anywhere: inserting one before any line, or as the last line,
/// changes nothing the configuration says.
pub proof fn lemma_skipped_line_inserted(p: Seq<char>, l: Seq<char>, q: Seq<char>)
    requires
        ends_line(p),
        skipped_line(l),
    ensures
        spec_parse(p + l.push('\n') + q) == spec_parse(p + q),
        spec_parse(p + l) == spec_parse(p),
{
    let st1 = apply_lines(p, 0, initial_state());
    assert(p + l.push('\n') + q =~= p + (l.push('\n') + q));
    lemma_lines_concat(p, l.push('\n') + q, initial_state());
    lemma_lines_concat(l.push('\n'), q, st1);
    lemma_single_line(l, st1);
    lemma_skipped_line_effect(l, st1);
    lemma_lines_concat(p, q, initial_state());
    lemma_lines_concat(p, l, initial_state());
}

/// The same, for a line added after a last line that has no newline: the
/// newline that separates them changes nothing either.
pub proof fn lemma_skipped_line_appended(p: Seq<char>, r: Seq<char>, l: Seq<char>)
    requires
        ends_line(p),
        no_newline(r),
        skipped_line(l),
    ensures
        spec_parse(p + r.push('\n') + l) == spec_parse(p + r),
{
    let st1 = apply_lines(p, 0, initial_state());
    assert(p + r.push('\n') + l =~= p + (r.push('\n') + l));
    lemma_lines_concat(p, r.push('\n') + l, initial_state());
    lemma_lines_concat(r.push('\n'), l, st1);
    lemma_single_line(r, st1);
    let st2 = line_effect(r, st1);
    lemma_single_line(l, st2);
    lemma_skipped_line_effect(l, st2);
    lemma_lines_concat(p, r, initial_state());
}

/// A comment may end any line: appending `# ...` to a line changes nothing
/// the configuration says.
pub proof fn lemma_comment_appended(p: Seq<char>, l: Seq<char>, c: Seq<char>, q: Seq<char>)
    requires
        ends_line(p),
        no_newline(l),
        no_newline(c),
        c.len() > 0,
        c[0] == '#',
        q.len() == 0 || q[0] == '\n',
    ensures
        spec_parse(p + l + c + q) == spec_parse(p + l + q),
{
    let st1 = apply_lines(p, 0, initial_state());
    assert(p + l + c + q =~= p + (l + c + q));
    assert(p + l + q =~= p + (l + q));
    lemma_lines_concat(p, l + c + q, initial_state());
    lemma_lines_concat(p, l + q, initial_state());
    lemma_comment_suffix_effect(l, c, st1);
    let lc = l + c;
    assert forall|k: int| 0 <= k < lc.len() implies #[trigger] lc[k] != '\n' by {
        if k < l.len() {
            assert(lc[k] == l[k]);
        } else {
            assert(lc[k] == c[k - l.len()]);
        }
    }
    lemma_single_line(lc, st1);
    lemma_single_line(l, st1);
    if q.len() == 0 {
        assert(lc + q =~= lc);
        assert(l + q =~= l);
    } else {
        let rest = q.drop_first();
        assert(lc + q =~= lc.push('\n') + rest);
        assert(l + q =~= l.push('\n') + rest);
        lemma_lines_concat(lc.push('\n'), rest, st1);
        lemma_lines_concat(l.push('\n'), rest, st1);
    }
}

// ---------------------------------------------------------------------------
// What is skipped, and why: the notices a text earns.
// ---------------------------------------------------------------------------

/// Why a line of the configuration, or its default, was not used.
#[derive(Debug, PartialEq, Eq)]
pub enum Notice {
    /// A directive about an entry, before any `entry` line.
    BeforeAnyEntry(String),
    /// A path UEFI cannot name a file with.
    BadPath(String),
    /// `modules` in an entry that is not a Multiboot one.
    ModulesNeedMultiboot,
    /// `initrd` in an entry that is not a Linux one.
    InitrdNeedsLinux,
    /// `options` in an entry that is not a Linux one.
    OptionsNeedLinux,
    /// A directive Bang does not know.
    Ignored(String),
    /// A `default` title that no entry has.
    NoEntryNamed(String),
}

/// What a [`Notice`] says, as values.
pub enum NoticeView {
    BeforeAnyEntry(Seq<char>),
    BadPath(Seq<char>),
    ModulesNeedMultiboot,
    InitrdNeedsLinux,
    OptionsNeedLinux,
    Ignored(Seq<char>),
    NoEntryNamed(Seq<char>),
}

impl View for Notice {
    type V = NoticeView;

    open spec fn view(&self) -> NoticeView {
        match self {
            Notice::BeforeAnyEntry(d) => NoticeView::BeforeAnyEntry(d@),
            Notice::BadPath(p) => NoticeView::BadPath(p@),
            Notice::ModulesNeedMultiboot => NoticeView::ModulesNeedMultiboot,
            Notice::InitrdNeedsLinux => NoticeView::InitrdNeedsLinux,
            Notice::OptionsNeedLinux => NoticeView::OptionsNeedLinux,
            Notice::Ignored(d) => NoticeView::Ignored(d@),
            Notice::NoEntryNamed(t) => NoticeView::NoEntryNamed(t@),
        }
    }
}

pub open spec fn notices_view(ns: Seq<Notice>) -> Seq<NoticeView> {
    ns.map_values(|n: Notice| n@)
}

/// A path the argument cannot be: reported as such.
pub open spec fn path_notice(arg: Seq<char>) -> Option<NoticeView> {
    if ucs2_of(arg) is None {
        Some(NoticeView::BadPath(arg))
    } else {
        None
    }
}

/// Whether the directive `dir` with argument `arg`, read with the
/// configuration so far `c`, is reported: the directives about an entry
/// before any entry, a path UEFI cannot use, a directive for another kind of
/// entry, and one Bang does not know.
pub open spec fn directive_notice(c: ConfigView, dir: Seq<char>, arg: Seq<char>) -> Option<NoticeView> {
    if dir == "timeout"@ || dir == "autodetect"@ || dir == "default"@ || dir == "entry"@ {
        None
    } else if c.entries.len() == 0 {
        Some(NoticeView::BeforeAnyEntry(dir))
    } else {
        let t = c.entries.last().target;
        if dir == "multiboot"@ || dir == "chainload"@ || dir == "linux"@ {
            path_notice(arg)
        } else if dir == "modules"@ {
            match t {
                TargetView::Multiboot { .. } => path_notice(arg),
                _ => Some(NoticeView::ModulesNeedMultiboot),
            }
        } else if dir == "initrd"@ {
            match t {
                TargetView::Linux { .. } => path_notice(arg),
                _ => Some(NoticeView::InitrdNeedsLinux),
            }
        } else if dir == "options"@ {
            match t {
                TargetView::Linux { .. } => None,
                _ => Some(NoticeView::OptionsNeedLinux),
            }
        } else {
            Some(NoticeView::Ignored(dir))
        }
    }
}

/// The notice the line `t[a..e]` earns, read as [`apply_line`] reads it.
pub open spec fn line_notice(t: Seq<char>, a: int, e: int, c: ConfigView) -> Option<NoticeView> {
    let h = find_char(t, a, e, '#');
    let s = skip_ws(t, a, h);
    let f = trim_end(t, s, h);
    if s >= f {
        None
    } else {
        let d = find_ws(t, s, f);
        let x = skip_ws(t, d, f);
        let y = trim_end(t, x, f);
        directive_notice(c, t.subrange(s, d), t.subrange(x, y))
    }
}

pub open spec fn opt_seq(n: Option<NoticeView>) -> Seq<NoticeView> {
    match n {
        Some(v) => seq![v],
        None => seq![],
    }
}

/// The notices of the lines of `t` from index `a` on, in order, starting
/// from the parse state `st`.
pub open spec fn line_notices(t: Seq<char>, a: int, st: ParseState) -> Seq<NoticeView>
    decreases t.len() + 1 - a,
{
    if a < 0 || a >= t.len() {
        seq![]
    } else {
        let e = find_char(t, a, t.len() as int, '\n');
        proof {
            lemma_find_char_bounds(t, a, t.len() as int, '\n');
        }
        opt_seq(line_notice(t, a, e, st.cfg)) + line_notices(t, e + 1, apply_line(t, a, e, st))
    }
}

/// Once every line is read: a default title that names no entry there is.
pub open spec fn final_notice(st: ParseState) -> Seq<NoticeView> {
    match st.default_title {
        Some(title) => if find_title(st.cfg.entries.filter(bootable()), title, 0) is None {
            seq![NoticeView::NoEntryNamed(title)]
        } else {
            seq![]
        },
        None => seq![],
    }
}

/// Everything reading `t` skips, and why, in the order it is met.
pub open spec fn spec_notices(t: Seq<char>) -> Seq<NoticeView> {
    line_notices(t, 0, initial_state()) + final_notice(apply_lines(t, 0, initial_state()))
}

/// A path's notice, if the argument cannot be one.
fn path_notice_exec(arg: &[char]) -> (r: Option<Notice>)
    ensures
        match r {
            Some(n) => path_notice(arg@) == Some(n@),
            None => path_notice(arg@) is None,
        },
{
    match ucs2_from_chars(arg) {
        Some(_) => None,
        None => Some(Notice::BadPath(string_from_chars(arg))),
    }
}

/// The notice of the line `t[a..e]`, read with the configuration so far.
fn line_notice_exec(t: &Vec<char>, a: usize, e: usize, cfg: &Config) -> (r: Option<Notice>)
    requires
        a <= e <= t@.len(),
    ensures
        match r {
            Some(n) => line_notice(t@, a as int, e as int, cfg@) == Some(n@),
            None => line_notice(t@, a as int, e as int, cfg@) is None,
        },
{
    let h = find_char_exec(t, a, e, '#');
    let s = skip_ws_exec(t, a, h);
    let f = trim_end_exec(t, s, h);
    if s >= f {
        return None;
    }
    let d = find_ws_exec(t, s, f);
    let x = skip_ws_exec(t, d, f);
    let y = trim_end_exec(t, x, f);
    let arg = slice_subrange(t.as_slice(), x, y);
    if range_is(t, s, d, "timeout") || range_is(t, s, d, "autodetect") || range_is(t, s, d, "default")
        || range_is(t, s, d, "entry") {
        return None;
    }
    let dir = slice_subrange(t.as_slice(), s, d);
    let n = cfg.entries.len();
    if n == 0 {
        return Some(Notice::BeforeAnyEntry(string_from_chars(dir)));
    }
    assert(cfg@.entries.last() == cfg.entries@[n - 1]@);
    let target = &cfg.entries[n - 1].target;
    if range_is(t, s, d, "multiboot") || range_is(t, s, d, "chainload") || range_is(t, s, d, "linux") {
        path_notice_exec(arg)
    } else if range_is(t, s, d, "modules") {
        match target {
            Target::Multiboot { .. } => path_notice_exec(arg),
            _ => Some(Notice::ModulesNeedMultiboot),
        }
    } else if range_is(t, s, d, "initrd") {
        match target {
            Target::Linux { .. } => path_notice_exec(arg),
            _ => Some(Notice::InitrdNeedsLinux),
        }
    } else if range_is(t, s, d, "options") {
        match target {
            Target::Linux { .. } => None,
            _ => Some(Notice::OptionsNeedLinux),
        }
    } else {
        Some(Notice::Ignored(string_from_chars(dir)))
    }
}

/// What reading `text` skips, and why, in the order it is met: each line
/// [`parse`] does not use, and a default title that names no entry. A
/// bootloader reports these rather than refusing to start.
pub fn notices(text: &str) -> (r: Vec<Notice>)
    ensures
        notices_view(r@) == spec_notices(text@),
{
    let t = chars_of(text);
    let n = t.len();
    let mut cfg = Config { timeout: 5, default: 0, entries: Vec::new(), autodetect: true };
    let mut default_title: Option<String> = None;
    let mut out: Vec<Notice> = Vec::new();
    assert(cfg@.entries =~= seq![]);
    assert(notices_view(out@) =~= seq![]);
    let mut a: usize = 0;
    while a < n
        invariant
            n == t@.len(),
            t@ == text@,
            a <= n,
            notices_view(out@) + line_notices(t@, a as int, state_view(&cfg, &default_title))
                == line_notices(t@, 0, initial_state()),
            apply_lines(t@, a as int, state_view(&cfg, &default_title)) == apply_lines(
                t@,
                0,
                initial_state(),
            ),
        decreases n - a,
    {
        let e = find_char_exec(&t, a, n, '\n');
        let ghost st0 = state_view(&cfg, &default_title);
        let ghost before = out@;
        match line_notice_exec(&t, a, e, &cfg) {
            Some(note) => {
                out.push(note);
                assert(notices_view(out@) =~= notices_view(before) + seq![note@]);
            },
            None => {},
        }
        assert(notices_view(out@) =~= notices_view(before) + opt_seq(line_notice(t@, a as int, e as int, st0.cfg)));
        parse_line(&t, a, e, &mut cfg, &mut default_title);
        assert(line_notices(t@, a as int, st0) == opt_seq(line_notice(t@, a as int, e as int, st0.cfg))
            + line_notices(t@, e + 1, state_view(&cfg, &default_title)));
        assert(apply_lines(t@, a as int, st0) == apply_lines(t@, e + 1, state_view(&cfg, &default_title)));
        if e >= n {
            a = n;
        } else {
            a = e + 1;
        }
    }
    assert(notices_view(out@) =~= line_notices(t@, 0, initial_state()));
    let ghost st = state_view(&cfg, &default_title);
    assert(st == apply_lines(t@, 0, initial_state()));
    let ghost before = out@;
    match default_title {
        Some(title) => {
            let fin = finish_exec(cfg, None);
            assert(fin@.entries == st.cfg.entries.filter(bootable()));
            let len = fin.entries.len();
            let mut i: usize = 0;
            while i < len && !(fin.entries[i].title == title)
                invariant
                    len == fin.entries@.len(),
                    fin@.entries == st.cfg.entries.filter(bootable()),
                    i <= len,
                    find_title(fin@.entries, title@, i as int) == find_title(fin@.entries, title@, 0),
                decreases len - i,
            {
                i = i + 1;
            }
            if i >= len {
                out.push(Notice::NoEntryNamed(title));
                assert(notices_view(out@) =~= notices_view(before) + final_notice(st));
            } else {
                assert(final_notice(st) =~= seq![]);
                assert(notices_view(out@) =~= notices_view(before) + final_notice(st));
            }
        },
        None => {
            assert(notices_view(out@) =~= notices_view(before) + final_notice(st));
        },
    }
    out
}

/// What reading the configuration file skips, and why: nothing when the file
/// is not used at all (see [`from_file`]), else what [`notices`] gives for
/// its text.
pub fn file_notices(size: usize, contents: &[u8]) -> (r: Vec<Notice>)
    ensures
        notices_view(r@) == (if !(size == 0 || size > MAX_CONFIG_SIZE) && vstd::utf8::valid_utf8(contents@) {
            spec_notices(vstd::utf8::decode_utf8(contents@))
        } else {
            seq![]
        }),
{
    if !worth_reading(size) {
        return Vec::new();
    }
    match utf8_text(contents) {
        Some(text) => notices(text),
        None => Vec::new(),
    }
}

// ---------------------------------------------------------------------------
// What each directive about an entry changes.
// ---------------------------------------------------------------------------

/// Everything but the last entry's target is as it was: the top-level
/// settings, the default being looked for, the earlier entries, and the last
/// entry's title.
pub open spec fn only_last_target_changed(before: ParseState, after: ParseState) -> bool {
    let b = before.cfg;
    let a = after.cfg;
    &&& a.timeout == b.timeout
    &&& a.default == b.default
    &&& a.autodetect == b.autodetect
    &&& after.default_title == before.default_title
    &&& a.entries.len() == b.entries.len()
    &&& a.entries.drop_last() == b.entries.drop_last()
    &&& a.entries.last().title == b.entries.last().title
}

/// The directives about the entry being declared each change one thing of
/// it and nothing else. In a Linux entry, `initrd` sets the initrd and keeps
/// the kernel and the command line; `options` sets the command line and keeps
/// the kernel and the initrd; `modules` does nothing. In a Multiboot entry,
/// `modules` sets the modules and keeps the kernel; `initrd` and `options` do
/// nothing. In a chainload entry none of the three does anything. No other
/// entry, and no top-level setting, is touched.
pub proof fn lemma_entry_directives_change_one_field(st: ParseState, arg: Seq<char>)
    requires
        st.cfg.entries.len() > 0,
    ensures
        only_last_target_changed(st, apply_directive(st, "initrd"@, arg)),
        only_last_target_changed(st, apply_directive(st, "options"@, arg)),
        only_last_target_changed(st, apply_directive(st, "modules"@, arg)),
        match st.cfg.entries.last().target {
            TargetView::Linux { kernel, initrd, cmdline } => {
                &&& apply_directive(st, "initrd"@, arg).cfg.entries.last().target
                    == TargetView::Linux { kernel, initrd: ucs2_of(arg), cmdline }
                &&& apply_directive(st, "options"@, arg).cfg.entries.last().target
                    == TargetView::Linux { kernel, initrd, cmdline: arg }
                &&& apply_directive(st, "modules"@, arg) == st
            },
            TargetView::Multiboot { kernel, modules } => {
                &&& apply_directive(st, "modules"@, arg).cfg.entries.last().target
                    == TargetView::Multiboot { kernel, modules: ucs2_of(arg) }
                &&& apply_directive(st, "initrd"@, arg) == st
                &&& apply_directive(st, "options"@, arg) == st
            },
            TargetView::Chainload { .. } => {
                &&& apply_directive(st, "modules"@, arg) == st
                &&& apply_directive(st, "initrd"@, arg) == st
                &&& apply_directive(st, "options"@, arg) == st
            },
        },
{
    reveal_strlit("timeout");
    reveal_strlit("autodetect");
    reveal_strlit("default");
    reveal_strlit("entry");
    reveal_strlit("multiboot");
    reveal_strlit("modules");
    reveal_strlit("chainload");
    reveal_strlit("linux");
    reveal_strlit("initrd");
    reveal_strlit("options");
    // The directives are told apart by their length or first letter.
    assert("options"@[0] != "timeout"@[0] && "options"@[0] != "default"@[0] && "options"@[0] != "modules"@[0]);
    assert("modules"@[0] != "timeout"@[0] && "modules"@[0] != "default"@[0]);
    assert("initrd"@.len() == 6 && "options"@.len() == 7 && "modules"@.len() == 7);
    let c = st.cfg;
    let n = c.entries.len() as int;
    let last = c.entries.last();
    lemma_directive_on_last(st, "initrd"@, arg);
    lemma_directive_on_last(st, "options"@, arg);
    lemma_directive_on_last(st, "modules"@, arg);
    let same = EntryView { title: last.title, target: last.target };
    assert(c.entries.update(n - 1, same) =~= c.entries);
}

/// A directive that is not a top-level one applies to the last entry.
proof fn lemma_directive_on_last(st: ParseState, dir: Seq<char>, arg: Seq<char>)
    requires
        st.cfg.entries.len() > 0,
        dir != "timeout"@,
        dir != "autodetect"@,
        dir != "default"@,
        dir != "entry"@,
    ensures
        only_last_target_changed(st, apply_directive(st, dir, arg)),
        apply_directive(st, dir, arg).cfg.entries.last().target == apply_to_target(
            st.cfg.entries.last().target,
            dir,
            arg,
        ),
{
    let c = st.cfg;
    let n = c.entries.len() as int;
    let last = c.entries.last();
    let e = EntryView { title: last.title, target: apply_to_target(last.target, dir, arg) };
    let es = c.entries.update(n - 1, e);
    assert(es.drop_last() =~= c.entries.drop_last());
}

} // verus!
