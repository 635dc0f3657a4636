use ooxml::hash::{crc32, Crc32};

const POLY: u32 = 0xEDB8_8320;

#[test]
fn known_answer_vectors() {
    assert_eq!(crc32(b""), 0x0000_0000);
    assert_eq!(crc32(b"123456789"), 0xCBF4_3926);
    assert_eq!(crc32(b"a"), 0xE8B7_BE43);
}

#[test]
fn streaming_matches_oneshot() {
    let data: Vec<u8> = (0..=255u8).cycle().take(10_000).collect();
    let mut c = Crc32::new();
    for chunk in data.chunks(97) {
        c.update(chunk);
    }
    assert_eq!(c.finish(), crc32(&data));
}

/// Folds bit by bit: what the tables are held against.
fn crc32_bitwise(data: &[u8]) -> u32 {
    let mut c = 0xFFFF_FFFFu32;
    for &b in data {
        c ^= u32::from(b);
        for _ in 0..8 {
            c = if c & 1 != 0 { (c >> 1) ^ POLY } else { c >> 1 };
        }
    }
    c ^ 0xFFFF_FFFF
}

#[test]
fn table_matches_bitwise_on_all_lengths_around_block_size() {
    let data: Vec<u8> = (0..40u8)
        .map(|i| i.wrapping_mul(37).wrapping_add(11))
        .collect();
    for n in 0..=data.len() {
        let part = &data[..n];
        assert_eq!(crc32(part), crc32_bitwise(part), "length {n}");
    }
}

#[test]
fn chunk_boundaries_do_not_shift_result() {
    let data: Vec<u8> = (0..1000u32).map(|i| (i % 251) as u8).collect();
    let one = crc32(&data);
    for step in [1usize, 3, 7, 8, 9, 64] {
        let mut c = Crc32::new();
        for chunk in data.chunks(step) {
            c.update(chunk);
        }
        assert_eq!(c.finish(), one, "step {step}");
    }
}

#[test]
fn a_clone_goes_on_by_itself() {
    let mut a = Crc32::default();
    a.update(b"1234");
    let mut b = a.clone();
    a.update(b"56789");
    b.update(b"xx");
    assert_eq!(a.finish(), 0xCBF4_3926);
    assert_eq!(b.finish(), crc32(b"1234xx"));
}
