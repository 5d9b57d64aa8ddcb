//! The fixed-width word arithmetic the modular layers stand on.

use zkboo_modular::word::CompositeWord;

fn w16(x: u16) -> CompositeWord {
    CompositeWord::from_le_bytes(x.to_le_bytes().to_vec())
}

fn v16(w: &CompositeWord) -> u16 {
    let b = w.to_le_bytes();
    u16::from_le_bytes([b[0], b[1]])
}

#[test]
fn word_constants() {
    assert_eq!(CompositeWord::zero(3).to_le_bytes(), vec![0, 0, 0]);
    assert_eq!(CompositeWord::one(3).to_le_bytes(), vec![1, 0, 0]);
    assert_eq!(CompositeWord::from_bool(false, 2).to_le_bytes(), vec![0, 0]);
    assert_eq!(CompositeWord::from_bool(true, 2).to_le_bytes(), vec![1, 0]);
    assert_eq!(w16(0x1234).width(), 2);
}

#[test]
fn word_predicates() {
    assert!(w16(0).is_zero());
    assert!(!w16(0x100).is_zero());
    assert!(w16(0x100).is_nonzero());
    assert!(w16(7).lsb());
    assert!(!w16(0x102).lsb());
    assert!(w16(0x200).ge(&w16(0x1ff)));
    assert!(w16(5).ge(&w16(5)));
    assert!(!w16(4).ge(&w16(5)));
    assert!(w16(9).equals(&w16(9)));
    assert!(!w16(9).equals(&w16(10)));
    assert!(!w16(9).equals(&CompositeWord::from_le_bytes(vec![9])));
}

#[test]
fn word_add_sub() {
    let (s, c) = w16(0xffff).overflowing_add(&w16(2));
    assert_eq!((v16(&s), c), (1, true));
    let (s, c) = w16(0x1234).overflowing_add(&w16(0x0101));
    assert_eq!((v16(&s), c), (0x1335, false));
    let (d, b) = w16(1).overflowing_sub(&w16(2));
    assert_eq!((v16(&d), b), (0xffff, true));
    let (d, b) = w16(0x300).overflowing_sub(&w16(0x1ff));
    assert_eq!((v16(&d), b), (0x101, false));
    assert_eq!(v16(&w16(0xfff0).wrapping_add(&w16(0x20))), 0x10);
    assert_eq!(v16(&w16(3).wrapping_sub(&w16(5))), 0xfffe);
    assert_eq!(v16(&w16(1).wrapping_neg()), 0xffff);
    assert_eq!(v16(&w16(0).wrapping_neg()), 0);
    assert_eq!(v16(&w16(0x00ff).not()), 0xff00);
}

#[test]
fn word_mul() {
    let (lo, hi) = w16(0xffff).wide_mul(&w16(0xffff));
    // 0xffff^2 = 0xfffe0001
    assert_eq!((v16(&lo), v16(&hi)), (0x0001, 0xfffe));
    let (lo, hi) = w16(300).wide_mul(&w16(7));
    assert_eq!((v16(&lo), v16(&hi)), (2100, 0));
    assert_eq!(v16(&w16(0x1234).wrapping_mul(&w16(0x100))), 0x3400);
}

#[test]
fn word_shifts() {
    assert_eq!(v16(&w16(0x8001).shr1()), 0x4000);
    assert_eq!(v16(&w16(0x0003).shr1_in(true)), 0x8001);
    assert_eq!(v16(&w16(0x0200).shr1()), 0x0100);
}
