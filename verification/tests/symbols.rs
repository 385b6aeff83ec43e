use rateless_iblt::digest::{bytes_eq, bytes_zero, hash, xor_mut};
use rateless_iblt::symbol::Symbol;

fn single(x: u64) -> Symbol<8> {
    let mut s = Symbol::<8>::default();
    s.add_entry(&x.to_le_bytes(), &hash(&x.to_le_bytes()));
    s
}

fn same(a: &Symbol<8>, b: &Symbol<8>) -> bool {
    a.sum == b.sum && a.checksum == b.checksum && a.count == b.count
}

#[test]
fn default_is_zero() {
    let z = Symbol::<8>::default();
    assert_eq!(z.sum, [0u8; 8]);
    assert_eq!(z.checksum, [0u8; 16]);
    assert_eq!(z.count, 0);
    assert!(z.is_empty_cell());
    assert!(!z.is_pure_cell());
}

#[test]
fn add_entry_xors_and_counts() {
    let mut s = Symbol::<2>::default();
    s.add_entry(&[0x0f, 0xf0], &[1; 16]);
    s.add_entry(&[0xff, 0x01], &[3; 16]);
    assert_eq!(s.sum, [0xf0, 0xf1]);
    assert_eq!(s.checksum, [2; 16]);
    assert_eq!(s.count, 2);
}

#[test]
fn subtraction_undoes_addition() {
    let a = single(17).add(single(99)).add(single(3));
    let b = single(5).add(single(99));
    let back = a.add(b).sub(b);
    assert!(same(&back, &a));
    let back = a.sub(b).add(b);
    assert!(same(&back, &a));
}

#[test]
fn counts_wrap_around() {
    let a = Symbol::<1> { sum: [1], checksum: [0; 16], count: i64::MAX };
    let b = Symbol::<1> { sum: [2], checksum: [0; 16], count: 1 };
    let sum = a.add(b);
    assert_eq!(sum.count, i64::MIN);
    assert_eq!(sum.sum, [3]);
    assert_eq!(sum.sub(b).count, i64::MAX);
    let c = Symbol::<1> { sum: [0], checksum: [0; 16], count: i64::MIN };
    assert_eq!(c.sub(b).count, i64::MAX);
    let mut d = a;
    d.add_entry(&[0], &[0; 16]);
    assert_eq!(d.count, i64::MIN);
}

#[test]
fn assign_forms_agree_with_value_forms() {
    let a = single(1).add(single(2));
    let b = single(2);
    let mut x = a;
    x.add_assign(b);
    assert!(same(&x, &a.add(b)));
    let mut y = a;
    y.sub_assign(&b);
    assert!(same(&y, &a.sub(b)));
    assert!(same(&a.copy(), &a));
}

#[test]
fn pure_cells() {
    let s = single(42);
    assert!(s.is_pure_cell());
    assert!(!s.is_empty_cell());
    // the same item subtracted: count -1, still pure
    let neg = Symbol::<8>::default().sub(s);
    assert_eq!(neg.count, -1);
    assert!(neg.is_pure_cell());
    // two items: mixed
    let two = single(42).add(single(43));
    assert!(!two.is_pure_cell());
    assert!(!two.is_empty_cell());
    // count 1 with a checksum that is not that of the sum
    let mut odd = s;
    odd.checksum[0] ^= 1;
    assert!(!odd.is_pure_cell());
    // the checksum of the sum with a count that is not 1 or -1
    let mut many = s;
    many.count = 3;
    assert!(!many.is_pure_cell());
    many.count = i64::MIN;
    assert!(!many.is_pure_cell());
}

#[test]
fn empty_cells() {
    // an item and itself: sum and checksum cancel, the count does not
    let twice = single(7).add(single(7));
    assert_eq!(twice.checksum, [0; 16]);
    assert!(!twice.is_empty_cell());
    // an item less itself
    let none = single(7).sub(single(7));
    assert!(none.is_empty_cell());
    // emptiness does not look at the sum
    let s = Symbol::<8> { sum: [9; 8], checksum: [0; 16], count: 0 };
    assert!(s.is_empty_cell());
    let s = Symbol::<8> { sum: [0; 8], checksum: [0, 0, 0, 0, 0, 0, 0, 0, 0, 0, 0, 0, 0, 0, 0, 1], count: 0 };
    assert!(!s.is_empty_cell());
}

#[test]
fn byte_helpers() {
    let mut a = [1u8, 2, 3];
    xor_mut(&mut a, &[1, 1, 1]);
    assert_eq!(a, [0, 3, 2]);
    assert!(bytes_eq(&[1u8, 2], &[1, 2]));
    assert!(!bytes_eq(&[1u8, 2], &[1, 3]));
    assert!(bytes_zero(&[0u8; 5]));
    assert!(!bytes_zero(&[0u8, 0, 4]));
    assert!(bytes_zero::<0>(&[]));
}
