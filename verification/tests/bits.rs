use rust_recipes::bits::{
    abs_trick, bit_max, bit_min, clear_bit, clear_lowest_set_bit, count_bits_in_range,
    fast_mod, find_unique, from_gray, get_bit, get_bits, highest_set_bit, ipv4_to_u32, is_bit_set,
    is_pow2, lowest_set_bit, lowest_set_bit_position, morton_encode, round_up_pow2, xor_swap, pack, parity, read_u32_le, round_down_pow2,
    set_bit, set_bits, sign, to_gray, toggle, toggle_bit, u32_to_ipv4, unpack, write_bit,
    write_u32_le, BloomFilter, Permissions, EXECUTE, READ, WRITE,
};

#[test]
fn bits_inspection() {
    let n: u32 = 0b_1010_1100;
    assert!(is_bit_set(n, 2));
    assert!(!is_bit_set(n, 0));
    assert_eq!(get_bit(n, 3), 1);
    assert_eq!(get_bits(n, 2, 5), 0b1011);
    assert_eq!(parity(n), 0);
    assert_eq!(parity(0b111), 1);
}

#[test]
fn bits_manipulation() {
    let n: u32 = 0b_0000_1010;
    assert_eq!(set_bit(n, 0), 0b0000_1011);
    assert_eq!(clear_bit(n, 1), 0b0000_1000);
    assert_eq!(toggle_bit(n, 3), 0b0000_0010);
    assert_eq!(write_bit(n, 4, 1), 0b0001_1010);
    assert_eq!(set_bits(n, 4, 6, 5), 0b0101_1010);
    assert_eq!(lowest_set_bit(0b1100), 0b0100);
    assert_eq!(lowest_set_bit(-8), 8);
    assert_eq!(lowest_set_bit(0), 0);
    assert_eq!(clear_lowest_set_bit(0b1100), 0b1000);
    assert_eq!(highest_set_bit(100), 64);
    assert_eq!(highest_set_bit(0), 0);
}

#[test]
fn bits_tricks() {
    assert!(is_pow2(64));
    assert!(!is_pow2(100));
    assert!(!is_pow2(0));
    assert_eq!(round_down_pow2(100), 64);
    assert_eq!(abs_trick(-42), 42);
    assert_eq!(abs_trick(42), 42);
    assert_eq!(bit_min(3, 7), 3);
    assert_eq!(bit_max(3, 7), 7);
    assert_eq!((sign(-5), sign(0), sign(5)), (-1, 0, 1));
    assert_eq!(toggle(3, 3, 7), 7);
    assert_eq!(toggle(7, 3, 7), 3);
    assert_eq!(fast_mod(100, 32), 4);
    assert_eq!(morton_encode(3, 5), 0b100111);
    assert_eq!(to_gray(6), 0b0101);
    assert_eq!(from_gray(to_gray(6)), 6);
    for n in 0..1000u32 {
        assert_eq!(from_gray(to_gray(n)), n);
    }
}

#[test]
fn bits_practical() {
    let mut p = Permissions::new();
    p.grant(READ | WRITE);
    assert!(p.has(READ));
    assert!(!p.has(EXECUTE));
    assert!(p.has_any(EXECUTE | WRITE));
    p.revoke(WRITE);
    assert!(!p.has(WRITE));

    let packed = pack(0xABCD, 0x1234);
    assert_eq!(packed, 0xABCD_1234);
    assert_eq!(unpack(packed), (0xABCD, 0x1234));

    let ip = ipv4_to_u32(192, 168, 1, 1);
    assert_eq!(ip, 0xC0A8_0101);
    assert_eq!(u32_to_ipv4(ip), (192, 168, 1, 1));

    assert_eq!(count_bits_in_range(0, 7), 12);
    assert_eq!(count_bits_in_range(5, 4), 0);
    assert_eq!(find_unique(&[4, 1, 2, 1, 2, 3, 3]), 4);

    let mut buf = [0u8; 8];
    write_u32_le(&mut buf, 0, 0xDEAD_BEEF);
    assert_eq!(buf[..4], [0xEF, 0xBE, 0xAD, 0xDE]);
    assert_eq!(read_u32_le(&buf, 0), 0xDEAD_BEEF);
}

#[test]
fn bits_bloom_filter() {
    let mut bf = BloomFilter::new();
    bf.insert(b"ab");
    bf.insert(b"xy");
    assert!(bf.probably_contains(b"ab"));
    assert!(bf.probably_contains(b"xy"));
    assert_eq!(BloomFilter::hash1(b"ab"), 2);
    assert_eq!(BloomFilter::hash2(b"ab"), (97 + 98) % 64);
    assert!(!BloomFilter::new().probably_contains(b"ab"));
}

#[test]
fn bits_round_up_swap_trailing() {
    assert_eq!(round_up_pow2(100), 128);
    assert_eq!(round_up_pow2(128), 128);
    assert_eq!(round_up_pow2(0), 1);
    assert_eq!(round_up_pow2(1), 1);
    assert_eq!(round_up_pow2(0x8000_0000), 0x8000_0000);
    let mut a: i32 = 5;
    let mut b: i32 = 9;
    xor_swap(&mut a, &mut b);
    assert_eq!((a, b), (9, 5));
    assert_eq!(lowest_set_bit_position(0b_0101_1000), 3);
    assert_eq!(lowest_set_bit_position(0), 32);
    assert_eq!(toggle(4, 3, 7), 3 ^ 7 ^ 4);
    assert_eq!(fast_mod(100, 12), 100 & 11);
}
