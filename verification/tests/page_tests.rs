use rustboot::page::{Flags, Page, ACCESSED_BIT, HUGE_BIT, PRESENT_BIT, RW_BIT, USER_BIT};

#[test]
fn flag_values() {
    assert_eq!(Flags::present(), Flags(1));
    assert_eq!(Flags::rw(), Flags(2));
    assert_eq!(Flags::user(), Flags(4));
    assert_eq!(Flags::accessed(), Flags(0x20));
    assert_eq!(Flags::huge(), Flags(0x80));
    assert_eq!(Flags::zero(), Flags(0));
    assert_eq!(
        Flags::present().union(Flags::rw()).union(Flags::user()),
        Flags(PRESENT_BIT | RW_BIT | USER_BIT)
    );
    assert_eq!(ACCESSED_BIT | HUGE_BIT, 0xA0);
}

#[test]
fn entry_round_trip() {
    let p = Page::new(0x0012_3000, Flags::present().union(Flags::rw()));
    assert_eq!(p, Page(0x0012_3003));
    assert_eq!(p.physical(), 0x0012_3000);
    assert!(p.present());
    let q = Page::new(0x0012_3000, Flags::rw());
    assert!(!q.present());
    assert_eq!(q.physical(), 0x0012_3000);
}

#[test]
fn at_frame_multiplies_by_the_page_size() {
    assert_eq!(Page::at_frame(0, Flags::present()), Page(1));
    assert_eq!(Page::at_frame(5, Flags::rw()), Page(0x5002));
    assert_eq!(Page::at_frame(0xF_FFFF, Flags::zero()), Page(0xFFFF_F000));
}

#[test]
fn bitor_and_bitand() {
    let p = Page(0x7000).bitor(Flags::user());
    assert_eq!(p, Page(0x7004));
    assert!(p.bitand(Flags::user()));
    assert!(!p.bitand(Flags::rw()));
    assert!(p.bitand(Flags(6)));
}
