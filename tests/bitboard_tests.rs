use chess_engine::bitboard::Bitboard;

#[test]
fn test_basic_operations() {
    let mut bb = Bitboard::new();
    assert!(bb.is_empty());

    bb.set_square(0);
    assert!(bb.is_square_set(0));
    assert!(!bb.is_empty());
    assert_eq!(bb.count_bits(), 1);

    bb.clear_square(0);
    assert!(!bb.is_square_set(0));
    assert!(bb.is_empty());
}

#[test]
fn test_bitwise_operations() {
    let bb1 = Bitboard::from(0b1010);
    let bb2 = Bitboard::from(0b1100);

    assert_eq!((bb1 | bb2).get_bits(), 0b1110);
    assert_eq!((bb1 & bb2).get_bits(), 0b1000);
    assert_eq!((bb1 ^ bb2).get_bits(), 0b0110);
}

#[test]
fn test_bit_manipulation() {
    let bb = Bitboard::from(0b1010);
    assert_eq!(bb.count_bits(), 2);
    assert_eq!(bb.first_set_bit(), Some(1));
    assert_eq!(bb.last_set_bit(), Some(3));
}

#[test]
fn out_of_range_squares_are_ignored() {
    let mut bb = Bitboard::new();
    bb.set_square(64);
    bb.toggle_square(100);
    assert!(bb.is_empty());
    assert!(!bb.is_square_set(64));
}

#[test]
fn pop_lsb_walks_lowest_first() {
    let mut bb = Bitboard::from_u64(0b1001_0100);
    assert_eq!(bb.pop_lsb(), Some(2));
    assert_eq!(bb.pop_lsb(), Some(4));
    assert_eq!(bb.pop_lsb(), Some(7));
    assert_eq!(bb.pop_lsb(), None);
    let mut it = Bitboard::from_u64(0b110).iter_set_bits();
    assert_eq!(it.next(), Some(1));
    assert_eq!(it.next(), Some(2));
    assert_eq!(it.next(), None);
}

#[test]
fn lsb_and_reset() {
    let bb = Bitboard::from_u64(0b1011000);
    assert_eq!(bb.lsb().get_bits(), 0b1000);
    let mut c = bb;
    c.reset_lsb();
    assert_eq!(c.get_bits(), 0b1010000);
    let mut z = Bitboard::new();
    z.reset_lsb();
    assert_eq!(z.get_bits(), 0);
    assert_eq!(Bitboard::new().first_set_bit(), None);
    assert_eq!(Bitboard::full().last_set_bit(), Some(63));
}

#[test]
fn masks_and_coordinates() {
    assert_eq!(Bitboard::file_mask(0).get_bits(), 0x0101010101010101);
    assert_eq!(Bitboard::rank_mask(1).get_bits(), 0xFF00);
    assert_eq!(Bitboard::file_mask(8).get_bits(), 0);
    assert_eq!(Bitboard::square_from_coords(4, 3), Some(28));
    assert_eq!(Bitboard::square_from_coords(8, 0), None);
    assert_eq!(Bitboard::coords_from_square(28), Some((4, 3)));
    assert_eq!(Bitboard::coords_from_square(64), None);
    assert_eq!(Bitboard::full().get_file(2).count_bits(), 8);
}

#[test]
fn symmetries() {
    let a1 = Bitboard::from_u64(1);
    assert_eq!(a1.reverse().get_bits(), 1 << 63);
    assert_eq!(a1.flip_vertical().get_bits(), 1 << 56);
    assert_eq!(a1.rotate_180().get_bits(), 1 << 7);
    assert_eq!((!Bitboard::new()).get_bits(), u64::MAX);
    assert_eq!((a1 << 9u32).get_bits(), 1 << 9);
    assert_eq!((Bitboard::from_u64(1 << 9) >> 9u32).get_bits(), 1);
    assert_eq!(u64::from(Bitboard::from_u64(5)), 5);
}
