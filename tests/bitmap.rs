use light_grid::bitmap::BitMap;

#[test]
fn test_calc_size() {
    assert_eq!(1, BitMap::calc_internal_size(1), "1 flag");
    assert_eq!(1, BitMap::calc_internal_size(8), "8 flags");
    assert_eq!(2, BitMap::calc_internal_size(9));
    assert_eq!(2, BitMap::calc_internal_size(15));
    assert_eq!(2, BitMap::calc_internal_size(16));
    assert_eq!(3, BitMap::calc_internal_size(17));
}

#[test]
fn test_get_item_index() {
    assert_eq!(0, BitMap::get_item_index(0));
    assert_eq!(0, BitMap::get_item_index(1));
    assert_eq!(0, BitMap::get_item_index(7));
    assert_eq!(1, BitMap::get_item_index(8));
}

#[test]
fn test_zeros() {
    let bm = BitMap::new(8);
    for i in 0..8 {
        assert!(!bm.get_bit(i), "i={}", i)
    }
}

#[test]
fn test_set() {
    let mut bm = BitMap::new(9);
    bm.set_bit(0);
    assert_eq!(0b0000_0001, bm.word(0));
    bm.set_bit(7);
    assert_eq!(0b1000_0001, bm.word(0));
    bm.set_bit(8);
    assert_eq!(0b0000_0001, bm.word(1));
}

#[test]
fn test_get() {
    let mut bm = BitMap::new(8);
    bm.set_bit(0);
    bm.set_bit(7);
    assert!(bm.get_bit(0));
    assert!(bm.get_bit(7));
    assert!(!bm.get_bit(6));
}

#[test]
fn test_reset() {
    let mut bm = BitMap::new(8);
    bm.set_bit(7);
    assert!(bm.get_bit(7));
    bm.reset_bit(7);
    assert!(!bm.get_bit(7));
}

#[test]
fn test_toggle() {
    let mut bm = BitMap::new(8);
    bm.toggle_bit(7);
    assert!(bm.get_bit(7));
    assert!(!bm.get_bit(0));
    bm.toggle_bit(7);
    assert!(!bm.get_bit(7));
    assert!(!bm.get_bit(0));
}

#[test]
fn test_count() {
    let mut bm = BitMap::new(8);
    assert_eq!(0, bm.count());
    bm.set_bit(0);
    assert_eq!(1, bm.count());
    bm.set_bit(0);
    assert_eq!(1, bm.count());
    bm.set_bit(1);
    assert_eq!(2, bm.count());
    bm.reset_bit(1);
    assert_eq!(1, bm.count());
    bm.toggle_bit(0);
    assert_eq!(0, bm.count());
}

fn scan(bm: &BitMap, len: usize) -> usize {
    (0..len).filter(|&i| bm.get_bit(i)).count()
}

#[test]
fn count_matches_full_scan() {
    let len = 37;
    let mut bm = BitMap::new(len);
    for i in 0..len {
        match i % 3 {
            0 => bm.set_bit(i),
            1 => bm.toggle_bit(i),
            _ => bm.reset_bit(i),
        }
        assert_eq!(scan(&bm, len), bm.count());
    }
    for i in (0..len).step_by(2) {
        bm.toggle_bit(i);
        assert_eq!(scan(&bm, len), bm.count());
    }
    for i in (0..len).step_by(5) {
        bm.reset_bit(i);
        bm.reset_bit(i);
        assert_eq!(scan(&bm, len), bm.count());
    }
    assert_eq!(scan(&bm, len), bm.count());
}

#[test]
fn last_cell_lives_in_last_word() {
    let mut bm = BitMap::new(16);
    bm.set_bit(15);
    assert!(bm.get_bit(15));
    assert_eq!(0, bm.word(0));
    assert_eq!(0b1000_0000, bm.word(1));
    assert_eq!(1, bm.count());
}

#[test]
fn empty_bitmap_has_no_words() {
    assert_eq!(0, BitMap::calc_internal_size(0));
    let bm = BitMap::new(0);
    assert_eq!(0, bm.count());
}
