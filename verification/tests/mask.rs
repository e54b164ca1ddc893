use dinamika::Mask;

#[test]
fn new_mask_is_empty() {
    let m = Mask::new(3, 2).unwrap();
    assert_eq!((m.width(), m.height()), (3, 2));
    assert_eq!(m.data(), &[0u8; 6][..]);
    assert!(Mask::new(0, 2).is_none());
    assert!(Mask::new(2, 0).is_none());
}

#[test]
fn coverage_is_zero_outside() {
    let mut m = Mask::new(2, 2).unwrap();
    m.data_mut().copy_from_slice(&[1, 2, 3, 4]);
    assert_eq!(m.coverage(1, 0), 2);
    assert_eq!(m.coverage(0, 1), 3);
    assert_eq!(m.coverage(2, 0), 0);
    assert_eq!(m.coverage(0, 2), 0);
}

#[test]
fn intersect_multiplies_coverage() {
    let mut a = Mask::new(4, 1).unwrap();
    a.data_mut().copy_from_slice(&[255, 255, 128, 0]);
    let mut b = Mask::new(4, 1).unwrap();
    b.data_mut().copy_from_slice(&[255, 0, 128, 255]);
    a.intersect(&b);
    assert_eq!(a.data(), &[255, 0, 64, 0][..]);
}

#[test]
fn intersect_with_shorter_mask_keeps_the_tail() {
    let mut a = Mask::new(3, 1).unwrap();
    a.data_mut().copy_from_slice(&[200, 200, 200]);
    let mut b = Mask::new(2, 1).unwrap();
    b.data_mut().copy_from_slice(&[255, 100]);
    a.intersect(&b);
    assert_eq!(a.data(), &[200, 78, 200][..]);
}

#[test]
fn unite_keeps_the_larger_coverage() {
    let mut m = Mask::new(2, 1).unwrap();
    m.data_mut().copy_from_slice(&[100, 200]);
    m.unite_at(0, 0, 150);
    m.unite_at(1, 0, 150);
    m.unite_at(2, 0, 255);
    m.unite_at(0, 1, 255);
    assert_eq!(m.data(), &[150, 200][..]);
}

#[test]
fn intersection_is_symmetric_and_never_grows() {
    let values = [0u8, 1, 77, 128, 200, 254, 255];
    for &x in &values {
        for &y in &values {
            let mut a = Mask::new(1, 1).unwrap();
            a.data_mut()[0] = x;
            let mut b = Mask::new(1, 1).unwrap();
            b.data_mut()[0] = y;
            let mut ab = a.clone();
            ab.intersect(&b);
            let mut ba = b.clone();
            ba.intersect(&a);
            assert_eq!(ab.data(), ba.data());
            assert!(ab.data()[0] <= x && ab.data()[0] <= y);
        }
    }
}
