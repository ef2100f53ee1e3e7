use weevil::crc::{compute_crc32_table, crc32_update};
use weevil::{crc32, crc32_chained};

#[test]
fn crc32_check_value() {
    // The standard check value of CRC-32 (IEEE).
    assert_eq!(crc32(b"123456789"), 0xCBF4_3926);
}

#[test]
fn crc32_of_nothing_is_zero() {
    assert_eq!(crc32(b""), 0);
}

#[test]
fn crc32_single_bytes() {
    assert_eq!(crc32(b"a"), 0xE8B7_BE43);
    assert_eq!(crc32(&[0u8]), 0xD202_EF8D);
}

#[test]
fn crc32_chained_equals_whole() {
    let data = b"The quick brown fox jumps over the lazy dog";
    assert_eq!(crc32(data), 0x414F_A339);
    let (a, rest) = data.split_at(10);
    let (b, c) = rest.split_at(7);
    assert_eq!(crc32_chained(&[a, b, c]), crc32(data));
    assert_eq!(crc32_chained(&[a, &[], b, c]), crc32(data));
    assert_eq!(crc32_chained(&[]), crc32(b""));
}

#[test]
fn crc32_table_entries() {
    let table = compute_crc32_table();
    assert_eq!(table.len(), 256);
    assert_eq!(table[0], 0);
    assert_eq!(table[1], 0x7707_3096);
    assert_eq!(table[255], 0x2D02_EF8D);
}

#[test]
fn crc32_update_chains() {
    let table = compute_crc32_table();
    let a = b"hello, ";
    let b = b"world";
    let whole = b"hello, world";
    let s = 0x1234_5678u32;
    assert_eq!(crc32_update(&table, s, &[]), s);
    assert_eq!(
        crc32_update(&table, crc32_update(&table, s, a), b),
        crc32_update(&table, s, whole)
    );
    assert_eq!(!crc32_update(&table, 0xFFFF_FFFF, whole), crc32(whole));
}

#[test]
fn crc32_changes_on_every_single_bit_flip() {
    let data = b"weevil ledger".to_vec();
    let sum = crc32(&data);
    for i in 0..data.len() {
        for j in 0..8 {
            let mut flipped = data.clone();
            flipped[i] ^= 1u8 << j;
            assert_ne!(crc32(&flipped), sum, "byte {i} bit {j}");
        }
    }
}
