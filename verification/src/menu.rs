//! Choosing what to boot: a numbered list, a countdown, and a key.
//!
//! The menu is a state machine. Its owner polls for a key every tenth of a
//! second and hands the result to [`Menu::step`], which says what to do:
//! note that the countdown was cancelled, redraw the list, announce the
//! seconds left, or boot an entry.

use vstd::prelude::*;
use crate::config::Config;

verus! {

/// A key, as far as the menu cares.
pub enum MenuKey {
    Up,
    Down,
    /// A printable character.
    Char(char),
    /// Any other key.
    Other,
}

/// A menu on screen, counting down or waiting.
pub struct Menu {
    /// How many entries there are to choose between.
    pub count: usize,
    /// The entry the cursor is on.
    pub selected: usize,
    /// Whole seconds left before the selection boots.
    pub remaining: u64,
    /// Tenths of a second into the current second.
    pub tenths: u8,
    /// Whether the countdown is still running; any key stops it.
    pub counting: bool,
}

/// How the menu starts.
pub enum MenuStart {
    /// Boot this entry at once; there is nothing to ask.
    Boot(usize),
    /// Show the menu, with the cursor on the default.
    Show(Menu),
}

/// What one step of the menu asks its owner to do, in this order.
pub struct Step {
    /// Say that the countdown was cancelled.
    pub cancelled: bool,
    /// Draw the list again, with the cursor on `selected`.
    pub redraw: bool,
    /// Boot this entry.
    pub boot: Option<usize>,
    /// Say that `selected` boots in this many seconds.
    pub announce: Option<u64>,
}

/// The entry a digit picks, counting from 1, if there is one.
pub open spec fn digit_pick(c: char, count: usize) -> Option<usize> {
    if '1' <= c <= '9' && (c as u32 - '0' as u32) <= count {
        Some((c as u32 - '0' as u32 - 1) as usize)
    } else {
        None
    }
}

/// The entry above the cursor, wrapping round to the last.
pub open spec fn above(selected: usize, count: usize) -> usize {
    if selected == 0 {
        (count - 1) as usize
    } else {
        (selected - 1) as usize
    }
}

/// The entry below the cursor, wrapping round to the first.
pub open spec fn below(selected: usize, count: usize) -> usize {
    ((selected + 1) % (count as int)) as usize
}

/// A tenth of a second with no key pressed.
pub open spec fn tick(m: Menu) -> Menu {
    if !m.counting {
        m
    } else if m.tenths == 9 {
        Menu { tenths: 0, remaining: (m.remaining - 1) as u64, counting: m.remaining != 1, ..m }
    } else {
        Menu { tenths: (m.tenths + 1) as u8, ..m }
    }
}

/// Whether the countdown runs out in this tenth of a second.
pub open spec fn runs_out(m: Menu) -> bool {
    m.counting && m.tenths == 9 && m.remaining == 1
}

/// The menu after `k` tenths of a second with no key pressed.
pub open spec fn idle(m: Menu, k: nat) -> Menu
    decreases k,
{
    if k == 0 {
        m
    } else {
        tick(idle(m, (k - 1) as nat))
    }
}

impl Menu {
    pub open spec fn wf(&self) -> bool {
        &&& self.count >= 2
        &&& self.tenths < 10
        &&& self.counting ==> self.remaining >= 1
    }

    /// Start choosing between the entries of `cfg`.
    ///
    /// Returns the default at once when there is nothing to choose between,
    /// or when the timeout is zero: an unattended machine should not stop at
    /// a menu it has only one answer for.
    pub fn start(cfg: &Config) -> (r: MenuStart)
        ensures
            cfg.entries@.len() <= 1 || cfg.timeout == 0 ==> r == MenuStart::Boot(cfg.default),
            !(cfg.entries@.len() <= 1 || cfg.timeout == 0) ==> r == MenuStart::Show(
                Menu {
                    count: cfg.entries@.len() as usize,
                    selected: cfg.default,
                    remaining: cfg.timeout,
                    tenths: 0,
                    counting: true,
                },
            ),
            r matches MenuStart::Show(m) ==> m.wf(),
    {
        if cfg.entries.len() <= 1 || cfg.timeout == 0 {
            return MenuStart::Boot(cfg.default);
        }
        MenuStart::Show(
            Menu {
                count: cfg.entries.len(),
                selected: cfg.default,
                remaining: cfg.timeout,
                tenths: 0,
                counting: true,
            },
        )
    }

    /// One tenth of a second, in which `key` was pressed, or nothing was.
    ///
    /// Any key stops the countdown: someone is here, so the menu waits for
    /// them rather than booting out from under them. Up and down move the
    /// cursor, wrapping round; enter boots the selection; a digit boots the
    /// entry it numbers. While the countdown runs, every tenth step takes a
    /// second off it, and when none are left the selection boots.
    pub fn step(&mut self, key: Option<MenuKey>) -> (s: Step)
        requires
            old(self).wf(),
        ensures
            final(self).wf(),
            final(self).count == old(self).count,
            old(self).selected < old(self).count ==> final(self).selected < final(self).count,
            key is None ==> *final(self) == tick(*old(self)),
            s.cancelled == (key is Some && old(self).counting),
            final(self).counting == (old(self).counting && key is None && !(old(self).tenths == 9
                && old(self).remaining == 1)),
            s.redraw == (key matches Some(MenuKey::Up) || key matches Some(MenuKey::Down)),
            final(self).selected == match key {
                Some(MenuKey::Up) => above(old(self).selected, old(self).count),
                Some(MenuKey::Down) => below(old(self).selected, old(self).count),
                _ => old(self).selected,
            },
            s.boot == match key {
                Some(MenuKey::Char(c)) => if c == '\r' || c == '\n' {
                    Some(old(self).selected)
                } else {
                    digit_pick(c, old(self).count)
                },
                None => if old(self).counting && old(self).tenths == 9 && old(self).remaining
                    == 1 {
                    Some(old(self).selected)
                } else {
                    None
                },
                _ => None,
            },
            s.announce == if key is None && old(self).counting && old(self).tenths == 9
                && old(self).remaining > 1 {
                Some((old(self).remaining - 1) as u64)
            } else {
                None
            },
            key is None && old(self).counting ==> {
                &&& final(self).tenths == if old(self).tenths == 9 { 0 } else { old(self).tenths + 1 }
                &&& final(self).remaining == if old(self).tenths == 9 { old(self).remaining - 1 } else { old(self).remaining as int }
            },
            !(key is None && old(self).counting) ==> final(self).tenths == old(self).tenths
                && final(self).remaining == old(self).remaining,
    {
        let mut s = Step { cancelled: false, redraw: false, boot: None, announce: None };
        match key {
            Some(k) => {
                if self.counting {
                    self.counting = false;
                    s.cancelled = true;
                }
                match k {
                    MenuKey::Up => {
                        self.selected = if self.selected == 0 {
                            self.count - 1
                        } else {
                            self.selected - 1
                        };
                        s.redraw = true;
                    },
                    MenuKey::Down => {
                        self.selected = (self.selected % self.count + 1) % self.count;
                        proof {
                            lemma_mod_succ(old(self).selected as int, self.count as int);
                        }
                        s.redraw = true;
                    },
                    MenuKey::Char(c) => {
                        if c == '\r' || c == '\n' {
                            s.boot = Some(self.selected);
                        } else if '1' <= c && c <= '9' {
                            let d = (c as u32 - '0' as u32) as usize;
                            if d <= self.count {
                                s.boot = Some(d - 1);
                            }
                        }
                    },
                    MenuKey::Other => {},
                }
            },
            None => {
                if self.counting {
                    if self.tenths == 9 {
                        self.tenths = 0;
                        self.remaining = self.remaining - 1;
                        if self.remaining == 0 {
                            self.counting = false;
                            s.boot = Some(self.selected);
                        } else {
                            s.announce = Some(self.remaining);
                        }
                    } else {
                        self.tenths = self.tenths + 1;
                    }
                }
            },
        }
        s
    }
}

/// Moving down and then up puts the cursor back where it was.
pub proof fn lemma_down_then_up(selected: usize, count: usize)
    requires
        selected < count,
    ensures
        above(below(selected, count), count) == selected,
{
    lemma_below(selected as int, count as int);
}

/// Moving up and then down puts the cursor back where it was.
pub proof fn lemma_up_then_down(selected: usize, count: usize)
    requires
        selected < count,
    ensures
        below(above(selected, count), count) == selected,
{
    lemma_below(above(selected, count) as int, count as int);
}

proof fn lemma_below(s: int, n: int)
    requires
        0 <= s < n,
    ensures
        (s + 1) % n == if s + 1 == n { 0 } else { s + 1 },
{
    if s + 1 == n {
        vstd::arithmetic::div_mod::lemma_mod_self_0(n);
    } else {
        vstd::arithmetic::div_mod::lemma_small_mod((s + 1) as nat, n as nat);
    }
}

/// Left alone, a menu shown with a timeout of `t` seconds runs for exactly
/// `t` seconds: it boots its selection on the `10 t`-th tenth of a second,
/// and not before.
pub proof fn lemma_countdown(m: Menu, k: nat)
    requires
        m.wf(),
        m.counting,
        m.tenths == 0,
        k < 10 * m.remaining,
    ensures
        runs_out(idle(m, k)) == (k == 10 * m.remaining - 1),
        idle(m, k).selected == m.selected,
{
    lemma_idle_shape(m, k);
    let j = k / 10;
    let r = k % 10;
    assert(k == 10 * j + r);
}

/// After `k` idle tenths, `k / 10` seconds are gone and the countdown is
/// `k % 10` tenths into the next.
proof fn lemma_idle_shape(m: Menu, k: nat)
    requires
        m.wf(),
        m.counting,
        m.tenths == 0,
        k < 10 * m.remaining,
    ensures
        idle(m, k).counting,
        idle(m, k).remaining == m.remaining - k / 10,
        idle(m, k).tenths == k % 10,
        idle(m, k).selected == m.selected,
        idle(m, k).count == m.count,
    decreases k,
{
    if k > 0 {
        lemma_idle_shape(m, (k - 1) as nat);
        let p = (k - 1) as nat;
        assert(p / 10 < m.remaining) by (nonlinear_arith)
            requires p < 10 * m.remaining;
        if p % 10 == 9 {
            assert(k / 10 == p / 10 + 1 && k % 10 == 0) by (nonlinear_arith)
                requires k == p + 1, p % 10 == 9;
        } else {
            assert(k / 10 == p / 10 && k % 10 == p % 10 + 1) by (nonlinear_arith)
                requires k == p + 1, p % 10 != 9;
        }
    }
}

proof fn lemma_mod_succ(s: int, n: int)
    requires
        0 <= s,
        n > 0,
    ensures
        (s % n + 1) % n == (s + 1) % n,
{
    assert((s % n + 1) % n == (s + 1) % n) by (nonlinear_arith)
        requires 0 <= s, n > 0;
}

} // verus!
