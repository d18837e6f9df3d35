use engine::board::Board;

#[test]
fn set_then_get_reads_the_value_back() {
    let mut b = Board::empty();
    for y in 0..64 {
        for x in 0..4 {
            b.set(x, y, true);
            assert!(b.get(x, y));
            b.set(x, y, false);
            assert!(!b.get(x, y));
        }
    }
    assert!(b.is_empty());
}

#[test]
fn cells_outside_the_grid_read_empty_and_ignore_writes() {
    let mut b = Board::empty();
    b.set(4, 0, true);
    b.set(0, 64, true);
    assert!(b.is_empty());
    assert!(!b.get(4, 0));
    assert!(!b.get(0, 64));
    assert!(!b.get(usize::MAX, usize::MAX));
}

#[test]
fn skim_removes_full_rows_and_compacts() {
    let mut b = Board::empty();
    b.set_row(0, 0b1111);
    b.set_row(1, 0b0101);
    b.set_row(2, 0b1111);
    b.set_row(3, 0b1000);
    assert_eq!(b.height(), 4);
    b.skim();
    assert_eq!(b.row_at(0), 0b0101);
    assert_eq!(b.row_at(1), 0b1000);
    assert_eq!(b.row_at(2), 0);
    assert_eq!(b.height(), 2);
    assert_eq!(b.num_minos(), 3);
    let once = b;
    b.skim();
    assert_eq!(b, once);
}

#[test]
fn height_scans_both_halves() {
    let mut b = Board::empty();
    assert_eq!(b.height(), 0);
    b.set(2, 0, true);
    assert_eq!(b.height(), 1);
    b.set(0, 31, true);
    assert_eq!(b.height(), 32);
    b.set(3, 32, true);
    assert_eq!(b.height(), 33);
    b.set(1, 63, true);
    assert_eq!(b.height(), 64);
    assert_eq!(b.num_minos(), 4);
    assert_eq!(b.width(), 4);
}
