use timetabler_core::bitmap::Bitmap;

#[test]
fn set_get_clear() {
    let mut b = Bitmap::new(130);
    assert!(!b.get(0));
    assert!(!b.set(5)); // not set before
    assert!(b.get(5));
    assert!(b.set(5)); // setting again reports true
    b.set(129);
    assert!(b.get(129));
    assert!(!b.get(128));
    b.clear(5);
    assert!(!b.get(5));
    assert_eq!(b.count_ones(), 1);
}

#[test]
fn iter_ones_yields_sorted_indices() {
    let mut b = Bitmap::new(70);
    b.set(69);
    b.set(3);
    b.set(64);
    let got: Vec<usize> = b.iter_ones();
    assert_eq!(got, vec![3, 64, 69]);
}

#[test]
fn intersects_works() {
    let mut a = Bitmap::new(40);
    let mut b = Bitmap::new(40);
    a.set(7);
    assert!(!a.intersects(&b));
    b.set(7);
    assert!(a.intersects(&b));
}

#[test]
fn new_bitmap_is_all_zero_with_its_length() {
    let b = Bitmap::new(65);
    assert_eq!(b.len(), 65);
    assert!(!b.is_empty());
    assert_eq!(b.count_ones(), 0);
    assert!(b.iter_ones().is_empty());
    let e = Bitmap::new(0);
    assert!(e.is_empty());
    assert_eq!(e.len(), 0);
    assert_eq!(e.count_ones(), 0);
}

#[test]
fn set_leaves_other_bits_alone() {
    let mut b = Bitmap::new(128);
    b.set(63);
    b.set(64);
    assert!(b.get(63));
    assert!(b.get(64));
    assert!(!b.get(62));
    assert!(!b.get(65));
    b.clear(63);
    assert!(!b.get(63));
    assert!(b.get(64));
    assert_eq!(b.iter_ones(), vec![64]);
}

#[test]
fn clear_of_unset_bit_keeps_it_unset() {
    let mut b = Bitmap::new(10);
    b.clear(4);
    assert!(!b.get(4));
    assert_eq!(b.count_ones(), 0);
}

#[test]
fn count_ones_counts_across_words() {
    let mut b = Bitmap::new(200);
    for i in [0usize, 1, 63, 64, 127, 128, 199] {
        b.set(i);
    }
    assert_eq!(b.count_ones(), 7);
    assert_eq!(b.iter_ones(), vec![0, 1, 63, 64, 127, 128, 199]);
}

#[test]
fn intersects_only_below_both_lengths() {
    let mut a = Bitmap::new(100);
    let mut b = Bitmap::new(50);
    a.set(70);
    b.set(49);
    assert!(!a.intersects(&b));
    a.set(49);
    assert!(a.intersects(&b));
    assert!(b.intersects(&a));
}

#[test]
fn clone_keeps_bits() {
    let mut a = Bitmap::new(70);
    a.set(2);
    a.set(66);
    let c = a.clone();
    assert_eq!(c.len(), 70);
    assert_eq!(c.iter_ones(), vec![2, 66]);
    assert_eq!(c, a);
    let mut d = c.clone();
    d.clear(2);
    assert_ne!(d, a);
}
