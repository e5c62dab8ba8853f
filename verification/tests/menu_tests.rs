use bang::config::{parse, Config};
use bang::menu::{Menu, MenuKey, MenuStart, Step};

fn three(timeout: u64, default: usize) -> Config {
    let mut c = parse("entry A\nchainload \\a\nentry B\nchainload \\b\nentry C\nchainload \\c\n");
    c.timeout = timeout;
    c.default = default;
    c
}

fn shown(c: &Config) -> Menu {
    match Menu::start(c) {
        MenuStart::Show(m) => m,
        MenuStart::Boot(_) => panic!("expected a menu"),
    }
}

#[test]
fn nothing_to_ask_boots_the_default() {
    let one = parse("entry A\nchainload \\a\n");
    match Menu::start(&one) {
        MenuStart::Boot(i) => assert_eq!(i, 0),
        _ => panic!(),
    }
    match Menu::start(&three(0, 2)) {
        MenuStart::Boot(i) => assert_eq!(i, 2),
        _ => panic!(),
    }
}

#[test]
fn menu_starts_on_the_default_counting() {
    let m = shown(&three(5, 1));
    assert_eq!(m.count, 3);
    assert_eq!(m.selected, 1);
    assert_eq!(m.remaining, 5);
    assert!(m.counting);
}

#[test]
fn up_and_down_wrap_round() {
    let mut m = shown(&three(5, 0));
    let s = m.step(Some(MenuKey::Up));
    assert!(s.redraw && s.cancelled && s.boot.is_none());
    assert_eq!(m.selected, 2);
    m.step(Some(MenuKey::Down));
    assert_eq!(m.selected, 0);
    m.step(Some(MenuKey::Down));
    m.step(Some(MenuKey::Down));
    assert_eq!(m.selected, 2);
    m.step(Some(MenuKey::Down));
    assert_eq!(m.selected, 0);
}

#[test]
fn down_then_up_returns() {
    for start in 0..3 {
        let mut m = shown(&three(5, start));
        m.step(Some(MenuKey::Down));
        m.step(Some(MenuKey::Up));
        assert_eq!(m.selected, start);
    }
}

#[test]
fn enter_and_digits_boot() {
    let mut m = shown(&three(5, 1));
    assert_eq!(m.step(Some(MenuKey::Char('\r'))).boot, Some(1));
    let mut m2 = shown(&three(5, 1));
    assert_eq!(m2.step(Some(MenuKey::Char('\n'))).boot, Some(1));
    assert_eq!(m.step(Some(MenuKey::Char('3'))).boot, Some(2));
    assert_eq!(m.step(Some(MenuKey::Char('1'))).boot, Some(0));
    assert_eq!(m.step(Some(MenuKey::Char('4'))).boot, None);
    assert_eq!(m.step(Some(MenuKey::Char('0'))).boot, None);
    assert_eq!(m.step(Some(MenuKey::Char('x'))).boot, None);
    assert_eq!(m.step(Some(MenuKey::Other)).boot, None);
}

#[test]
fn a_key_stops_the_countdown() {
    let mut m = shown(&three(1, 0));
    let s: Step = m.step(Some(MenuKey::Other));
    assert!(s.cancelled);
    assert!(!m.counting);
    let s2 = m.step(Some(MenuKey::Other));
    assert!(!s2.cancelled);
    for _ in 0..100 {
        let s = m.step(None);
        assert!(s.boot.is_none() && s.announce.is_none());
    }
}

#[test]
fn countdown_boots_after_the_timeout() {
    let mut m = shown(&three(2, 2));
    for k in 1..20 {
        let s = m.step(None);
        assert!(s.boot.is_none(), "booted early at {}", k);
        if k == 10 {
            assert_eq!(s.announce, Some(1));
        } else {
            assert_eq!(s.announce, None);
        }
    }
    let s = m.step(None);
    assert_eq!(s.boot, Some(2));
    assert!(!m.counting);
}
