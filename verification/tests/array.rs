use bitarray::Array;

#[test]
fn test_indexes() {
    let a = Array::new(12, 20);
    // 0,0
    let mut pair: (usize, usize) = a.indexes(0, 0);
    assert_eq!(0, pair.0);
    assert_eq!(0, pair.1);
    // 0,4
    pair = a.indexes(0, 4);
    assert_eq!(0, pair.0);
    assert_eq!(4, pair.1);
    // 0,10
    pair = a.indexes(0, 10);
    assert_eq!(1, pair.0);
    assert_eq!(2, pair.1);
    // 1,0
    pair = a.indexes(1, 0);
    assert_eq!(2, pair.0);
    assert_eq!(4, pair.1);
}

#[test]
fn fresh_array_is_all_false() {
    let a = Array::new(12, 20);
    for i in 0..12 {
        for j in 0..20 {
            assert_eq!(false, a.get(i, j));
        }
    }
}

#[test]
fn set_then_get_round_trip() {
    let mut a = Array::new(12, 20);
    a.set(3, 7, true);
    assert_eq!(true, a.get(3, 7));
    a.set(3, 7, false);
    assert_eq!(false, a.get(3, 7));
    a.set(11, 19, true);
    assert_eq!(true, a.get(11, 19));
    a.set(0, 0, true);
    assert_eq!(true, a.get(0, 0));
}

#[test]
fn set_leaves_other_cells_unchanged() {
    let mut a = Array::new(4, 10);
    a.set(1, 3, true);
    a.set(2, 6, true);
    // (2, 6) shares its 8-bit group with neighbouring cells; none may move
    for i in 0..4 {
        for j in 0..10 {
            let expected: bool = (i == 1 && j == 3) || (i == 2 && j == 6);
            assert_eq!(expected, a.get(i, j));
        }
    }
    // clearing one of them leaves the other alone
    a.set(1, 3, false);
    assert_eq!(false, a.get(1, 3));
    assert_eq!(true, a.get(2, 6));
}

#[test]
fn set_twice_same_as_once() {
    let mut once = Array::new(5, 5);
    let mut twice = Array::new(5, 5);
    once.set(2, 2, true);
    twice.set(2, 2, true);
    twice.set(2, 2, true);
    for i in 0..5 {
        for j in 0..5 {
            assert_eq!(once.get(i, j), twice.get(i, j));
        }
    }
}

#[test]
fn neighbouring_bits_within_one_group() {
    // a single row of 8 cells fits exactly one group
    let mut a = Array::new(1, 8);
    a.set(0, 0, true);
    a.set(0, 7, true);
    for j in 0..8 {
        let expected: bool = j == 0 || j == 7;
        assert_eq!(expected, a.get(0, j));
    }
}

#[test]
fn doc_example() {
    let mut a = Array::new(2, 3);
    a.set(1, 2, true);
    assert_eq!(false, a.get(0, 0));
    assert_eq!(true, a.get(1, 2));
}

#[test]
fn zero_rows_constructs() {
    let _a = Array::new(0, 20);
}

#[test]
fn zero_columns_constructs() {
    let _a = Array::new(12, 0);
}

#[test]
fn one_by_one_grid() {
    let mut a = Array::new(1, 1);
    assert_eq!(false, a.get(0, 0));
    a.set(0, 0, true);
    assert_eq!(true, a.get(0, 0));
}
