use light_grid::bytemap::ByteMap;

fn scan(bm: &ByteMap, len: usize) -> usize {
    (0..len).map(|i| bm.get_byte(i) as usize).sum()
}

#[test]
fn fresh_counters_are_zero() {
    let bm = ByteMap::new(10);
    assert_eq!(0, bm.count());
    assert_eq!(0, scan(&bm, 10));
}

#[test]
fn increments_add_up() {
    let mut bm = ByteMap::new(4);
    bm.inc_byte(0);
    bm.inc_byte(0);
    bm.inc_byte_by(3, 5);
    assert_eq!(2, bm.get_byte(0));
    assert_eq!(5, bm.get_byte(3));
    assert_eq!(7, bm.count());
}

#[test]
fn decrement_stops_at_zero() {
    let mut bm = ByteMap::new(3);
    bm.dec_byte(1);
    assert_eq!(0, bm.get_byte(1));
    assert_eq!(0, bm.count());
    bm.inc_byte(1);
    bm.dec_byte(1);
    bm.dec_byte(1);
    assert_eq!(0, bm.get_byte(1));
    assert_eq!(0, bm.count());
}

#[test]
fn increment_stops_at_largest_byte() {
    let mut bm = ByteMap::new(2);
    bm.inc_byte_by(0, 250);
    bm.inc_byte_by(0, 10);
    assert_eq!(255, bm.get_byte(0));
    assert_eq!(255, bm.count());
    bm.inc_byte(0);
    assert_eq!(255, bm.count());
    bm.dec_byte(0);
    assert_eq!(254, bm.count());
}

#[test]
fn byte_count_matches_full_scan() {
    let len = 23;
    let mut bm = ByteMap::new(len);
    for round in 0..5usize {
        for i in 0..len {
            match (i + round) % 4 {
                0 => bm.inc_byte(i),
                1 => bm.inc_byte_by(i, 2),
                2 => bm.dec_byte(i),
                _ => bm.inc_byte_by(i, 100),
            }
            assert_eq!(scan(&bm, len), bm.count());
        }
    }
}
