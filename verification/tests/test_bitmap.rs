use copying_gc::BitMap;

#[test]
fn test_bitmap() {
    let mut m = BitMap::new(16);

    for i in 0..16 {
        m.set(i);

        assert_eq!(m.get(i), true);

        for j in 0..16 {
            if j != i {
                assert_eq!(m.get(j), false);
            }
        }

        m.unset(i);
    }
}

#[test]
fn bitmap_word_boundaries() {
    let mut m = BitMap::new(130);
    let probes = [0usize, 63, 64, 65, 127, 128, 129];
    for &i in probes.iter() {
        assert!(!m.get(i));
        m.set(i);
        assert!(m.get(i));
    }
    m.unset(64);
    assert!(!m.get(64));
    assert!(m.get(63));
    assert!(m.get(65));
    assert!(m.get(129));
}

#[test]
fn bitmap_single_bit() {
    let mut m = BitMap::new(1);
    assert_eq!(m.size(), 1);
    assert!(!m.get(0));
    m.set(0);
    assert!(m.get(0));
    m.unset(0);
    assert!(!m.get(0));
}
