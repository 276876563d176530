use voxelmarch::buffer::Buffer;

#[test]
fn buffer_linearize() {
    let buffer = Buffer::build(0, [10, 10, 10]);
    assert!(buffer.linearize([0, 0, 1]) == 100);
    assert!(buffer.linearize([0, 1, 0]) == 10);
    assert!(buffer.linearize([1, 0, 0]) == 1);
}

#[test]
fn buffer_delinearize() {
    let buffer = Buffer::build(0, [10, 10, 10]);
    assert!(buffer.delinearize(1) == [1, 0, 0]);
    assert!(buffer.delinearize(10) == [0, 1, 0]);
    assert!(buffer.delinearize(100) == [0, 0, 1]);
}

#[test]
fn buffer_oob() {
    let buffer = Buffer::build(0, [10, 10]);
    assert!(!buffer.surrounds([11, 11]));
    assert!(!buffer.surrounds([11, 0]));
    assert!(!buffer.surrounds([0, 11]));
}

#[test]
fn buffer_surrounds_inside() {
    let buffer = Buffer::build(0, [10, 10]);
    assert!(buffer.surrounds([9, 9]));
    assert!(buffer.surrounds([0, 0]));
    assert!(!buffer.surrounds([10, 9]));
    assert!(!buffer.surrounds([9, 10]));
}

#[test]
fn buffer_round_trip_all_offsets() {
    let buffer = Buffer::build(0u8, [3, 4, 5]);
    for o in 0..60 {
        let coords = buffer.delinearize(o);
        assert!(buffer.surrounds(coords));
        assert_eq!(buffer.linearize(coords), o);
    }
}

#[test]
fn buffer_round_trip_all_coords() {
    let buffer = Buffer::build(0u8, [3, 4, 5]);
    for x in 0..3 {
        for y in 0..4 {
            for z in 0..5 {
                let o = buffer.linearize([x, y, z]);
                assert!(o < 60);
                assert_eq!(buffer.delinearize(o), [x, y, z]);
            }
        }
    }
}

#[test]
fn buffer_build_fill_value() {
    let buffer = Buffer::build(42u32, [4, 3]);
    assert_eq!(buffer.items.len(), 12);
    for i in 0..12 {
        assert_eq!(*buffer.get(i), 42);
    }
    assert_eq!(buffer.size, [4, 3]);
}

#[test]
fn buffer_build_zero_component() {
    let buffer = Buffer::build(1u32, [4, 0, 3]);
    assert_eq!(buffer.items.len(), 0);
    assert!(!buffer.surrounds([0, 0, 0]));
}

#[test]
fn buffer_fill_overwrites_everything() {
    let mut buffer = Buffer::build(1u32, [2, 3]);
    buffer.set(4, 77);
    buffer.fill(9);
    for i in 0..6 {
        assert_eq!(*buffer.get(i), 9);
    }
}

#[test]
fn buffer_try_set_in_bounds() {
    let mut buffer = Buffer::build(0u32, [10, 10]);
    assert!(buffer.try_set(7, [2, 3]).is_ok());
    assert_eq!(*buffer.get_at([2, 3]), 7);
    assert_eq!(*buffer.get(32), 7);
    assert_eq!(*buffer.get_at([3, 2]), 0);
}

#[test]
fn buffer_try_set_out_of_bounds() {
    let mut buffer = Buffer::build(0u32, [10, 10]);
    let r = buffer.try_set(5, [10, 0]);
    assert_eq!(r, Err("out of bounds"));
    for i in 0..100 {
        assert_eq!(*buffer.get(i), 0);
    }
}

#[test]
fn buffer_set_at_then_get() {
    let mut buffer = Buffer::build(0i64, [4, 4, 4]);
    buffer.set_at([1, 2, 3], -5);
    assert_eq!(*buffer.get_at([1, 2, 3]), -5);
    assert_eq!(*buffer.get(buffer.linearize([1, 2, 3])), -5);
}
