use ooxml::deflate::bitreader::BitReader;
use ooxml::deflate::bitwriter::BitWriter;
use ooxml::deflate::encode::{dist_index, len_index, MAX_CLEN_BITS, MAX_CODE_BITS};
use ooxml::deflate::huffman::{canonical_codes, HuffTable};
use ooxml::deflate::lz77::{Lz77, Token, MAX_MATCH, MIN_MATCH, WSIZE};
use ooxml::deflate::rle::rle_lengths;
use ooxml::deflate::tables::{DIST_BASE, DIST_EXTRA, LENGTH_BASE, LENGTH_EXTRA, NUM_CLEN, NUM_DIST};
use ooxml::deflate::tree::{
    code_lengths, flat_depths, force_two_symbols, kraft_sum, limit_depth, DEPTH_SLOTS,
};
use ooxml::deflate::{deflate, inflate, inflate_into, Level};
use ooxml::error::{DeflateError, Error, LimitError};
use ooxml::limits::Limits;

#[test]
fn reads_lsb_first() {
    let mut r = BitReader::new(&[0xB2]);
    assert_eq!(r.bits(1), Some(0));
    assert_eq!(r.bits(2), Some(0b01));
    assert_eq!(r.bits(5), Some(0b1_0110));
}

#[test]
fn crosses_byte_boundary() {
    let mut r = BitReader::new(&[0xFF, 0x00]);
    assert_eq!(r.bits(12), Some(0x0FF));
}

#[test]
fn peek_pads_with_zeros_but_consume_refuses() {
    let mut r = BitReader::new(&[0x01]);
    assert_eq!(r.peek(16), 0x0001);
    assert_eq!(r.consume(16), None);
    assert_eq!(r.consume(8), Some(()));
}

#[test]
fn empty_input_yields_nothing() {
    let mut r = BitReader::new(&[]);
    assert_eq!(r.peek(9), 0);
    assert_eq!(r.bits(1), None);
    assert_eq!(r.bytes_consumed(), 0);
}

#[test]
fn align_rounds_up_consumed_bytes() {
    let mut r = BitReader::new(&[1, 2, 3, 4]);
    assert_eq!(r.bits(3), Some(1));
    assert_eq!(r.bytes_consumed(), 1);
    r.align_to_byte();
    assert_eq!(r.bit_pos(), 8);
    assert_eq!(r.take_bytes(2), Some(&[2u8, 3][..]));
    assert_eq!(r.bytes_consumed(), 3);
}

#[test]
fn take_bytes_past_end_is_none_and_harmless() {
    let mut r = BitReader::new(&[1, 2]);
    assert_eq!(r.take_bytes(3), None);
    assert_eq!(r.take_bytes(usize::MAX), None);
    assert_eq!(r.take_bytes(2), Some(&[1u8, 2][..]));
}

#[test]
fn writes_lsb_first() {
    let mut w = BitWriter::with_capacity(0);
    w.write_bits(0, 1);
    w.write_bits(0b01, 2);
    w.write_bits(0b1_0110, 5);
    assert_eq!(w.finish(), vec![0xB2]);
}

#[test]
fn round_trips_through_bitreader() {
    let pattern: [(u32, u32); 6] = [
        (0x1, 1),
        (0x2A, 6),
        (0x1FF, 9),
        (0x0, 3),
        (0xFFFF_FFFF, 32),
        (0x5, 4),
    ];
    let mut w = BitWriter::with_capacity(0);
    for &(v, n) in &pattern {
        w.write_bits(v, n);
    }
    let bytes = w.finish();
    let mut r = BitReader::new(&bytes);
    for &(v, n) in &pattern {
        let mask = if n == 32 { u32::MAX } else { (1u32 << n) - 1 };
        assert_eq!(r.bits(n), Some(v & mask), "{v:#x} in {n} bits");
    }
}

#[test]
fn align_pads_with_zeros() {
    let mut w = BitWriter::with_capacity(0);
    w.write_bits(0b111, 3);
    assert_eq!(w.bit_len(), 3);
    w.align_to_byte();
    assert_eq!(w.bit_len(), 8);
    w.write_bytes(&[0xAA, 0xBB]);
    assert_eq!(w.finish(), vec![0x07, 0xAA, 0xBB]);
}

#[test]
fn write_bytes_aligns_by_itself() {
    let mut w = BitWriter::with_capacity(0);
    w.write_bits(1, 1);
    w.write_bytes(&[0xFF]);
    assert_eq!(w.finish(), vec![0x01, 0xFF]);
}

#[test]
fn empty_writer_yields_nothing() {
    assert!(BitWriter::with_capacity(0).finish().is_empty());
}

#[test]
fn zero_width_write_is_a_noop() {
    let mut w = BitWriter::with_capacity(0);
    w.write_bits(0xFFFF, 0);
    assert_eq!(w.bit_len(), 0);
    assert!(w.finish().is_empty());
}

/// Puts canonical codes into a stream.
fn encode(codes: &[(u32, u32)]) -> Vec<u8> {
    let mut out = Vec::new();
    let mut acc = 0u64;
    let mut n = 0u32;
    for &(code, len) in codes {
        for i in (0..len).rev() {
            acc |= u64::from((code >> i) & 1) << n;
            n += 1;
        }
        while n >= 8 {
            out.push(acc as u8);
            acc >>= 8;
            n -= 8;
        }
    }
    if n > 0 {
        out.push(acc as u8);
    }
    out
}

#[test]
fn rfc_example_tree() {
    let t = HuffTable::build(&[3, 3, 3, 3, 3, 2, 4, 4]).unwrap();
    let stream = encode(&[(0b010, 3), (0b00, 2), (0b1111, 4), (0b1110, 4)]);
    let mut br = BitReader::new(&stream);
    assert_eq!(t.decode(&mut br).unwrap(), 0);
    assert_eq!(t.decode(&mut br).unwrap(), 5);
    assert_eq!(t.decode(&mut br).unwrap(), 7);
    assert_eq!(t.decode(&mut br).unwrap(), 6);
}

#[test]
fn oversubscribed_is_rejected() {
    assert_eq!(
        HuffTable::build(&[1, 1, 1]).err(),
        Some(DeflateError::OversubscribedTree)
    );
}

#[test]
fn incomplete_with_many_symbols_is_rejected() {
    assert_eq!(
        HuffTable::build(&[1, 2, 3]).err(),
        Some(DeflateError::IncompleteTree)
    );
}

#[test]
fn single_code_of_length_one_is_accepted() {
    let t = HuffTable::build(&[1]).unwrap();
    let mut br = BitReader::new(&[0x00]);
    assert_eq!(t.decode(&mut br).unwrap(), 0);
    let mut br = BitReader::new(&[0xFF]);
    assert_eq!(t.decode(&mut br), Err(DeflateError::InvalidCode));
}

#[test]
fn empty_tree_decodes_nothing() {
    let t = HuffTable::build(&[0, 0, 0]).unwrap();
    let mut br = BitReader::new(&[0xAA, 0xBB]);
    assert_eq!(t.decode(&mut br), Err(DeflateError::InvalidCode));
}

#[test]
fn long_codes_go_through_subtable() {
    let mut lens = Vec::new();
    for len in 1..=14u8 {
        lens.push(len);
    }
    lens.push(14);
    let t = HuffTable::build(&lens).unwrap();
    let mut codes = Vec::new();
    for (sym, &len) in lens.iter().enumerate() {
        let len = u32::from(len);
        let code = if sym < 14 {
            (1u32 << len).wrapping_sub(2)
        } else {
            (1u32 << len).wrapping_sub(1)
        };
        codes.push((code, len));
    }
    let stream = encode(&codes);
    let mut br = BitReader::new(&stream);
    for sym in 0..lens.len() {
        assert_eq!(t.decode(&mut br).unwrap(), sym as u16, "symbol {sym}");
    }
}

#[test]
fn truncated_stream_reports_eof_not_panic() {
    let t = HuffTable::build(&[3, 3, 3, 3, 3, 2, 4, 4]).unwrap();
    let mut br = BitReader::new(&[]);
    assert_eq!(t.decode(&mut br), Err(DeflateError::UnexpectedEof));
}

fn expand(tokens: &[Token]) -> Vec<u8> {
    let mut out: Vec<u8> = Vec::new();
    for t in tokens {
        let d = usize::from(t.dist());
        if d == 0 {
            out.push(t.value() as u8);
        } else {
            let start = out.len() - d;
            for i in 0..usize::from(t.value()) {
                out.push(out[start + i]);
            }
        }
    }
    out
}

fn tokenize_all(data: &[u8], level: Level) -> Vec<Token> {
    let mut lz = Lz77::new(data, level);
    let mut all = Vec::new();
    let mut buf = Vec::new();
    let mut end = 0;
    loop {
        let (s, e) = lz.next_block(&mut buf);
        assert_eq!(s, end, "blocks follow one another");
        all.extend_from_slice(&buf);
        end = e;
        if lz.is_done() {
            break;
        }
        assert!(e > s, "a block moves on");
    }
    assert_eq!(end, data.len(), "blocks cover the input");
    all
}

#[test]
fn tokens_reproduce_input_on_every_level() {
    let cases: Vec<Vec<u8>> = vec![
        Vec::new(),
        b"a".to_vec(),
        b"abcabcabcabc".to_vec(),
        b"aaaaaaaaaaaaaaaaaaaaaaaaaaaaaa".to_vec(),
        b"<w:p><w:r><w:t>hi</w:t></w:r></w:p><w:p><w:r><w:t>hi</w:t></w:r></w:p>".to_vec(),
        (0..5000u32).map(|i| (i % 7) as u8).collect(),
        vec![b'x'; 100_000],
    ];
    for level in [Level::Fast, Level::Default, Level::Best] {
        for data in &cases {
            let tokens = tokenize_all(data, level);
            assert_eq!(
                expand(&tokens),
                *data,
                "level {level:?}, {} bytes",
                data.len()
            );
        }
    }
}

#[test]
fn distances_stay_inside_the_window() {
    let data: Vec<u8> = (0..200_000u32).map(|i| (i % 251) as u8).collect();
    for level in [Level::Fast, Level::Default, Level::Best] {
        for t in tokenize_all(&data, level) {
            assert!(usize::from(t.dist()) < WSIZE, "distance outside the window");
            if t.dist() != 0 {
                let len = usize::from(t.value());
                assert!((MIN_MATCH..=MAX_MATCH).contains(&len), "length {len}");
            }
        }
    }
}

#[test]
fn blocks_never_exceed_the_stored_limit() {
    let data: Vec<u8> = (0..500_000u32)
        .map(|i| (i.wrapping_mul(2654435761) >> 24) as u8)
        .collect();
    let mut lz = Lz77::new(&data, Level::Default);
    let mut buf = Vec::new();
    loop {
        let (s, e) = lz.next_block(&mut buf);
        assert!(e - s <= 65_535, "a block of {} bytes cannot be stored", e - s);
        if lz.is_done() {
            break;
        }
    }
}

#[test]
fn long_run_is_found_as_one_match() {
    let mut data = b"seed".to_vec();
    data.extend(std::iter::repeat_n(b'z', 1000));
    let tokens = tokenize_all(&data, Level::Best);
    assert!(
        tokens
            .iter()
            .any(|t| t.dist() != 0 && t.value() == MAX_MATCH as u16),
        "a run of one byte gives matches of the greatest length"
    );
}

#[test]
fn tables_match_the_decoder() {
    for len in MIN_MATCH..=MAX_MATCH {
        let i = len_index(len);
        let base = LENGTH_BASE[i] as usize;
        let span = 1usize << LENGTH_EXTRA[i];
        assert!(
            (base..base + span).contains(&len) || len == 258,
            "length {len} went to code {i}"
        );
        assert!(len >= base, "length {len} is below the base of code {i}");
    }
    assert_eq!(len_index(258), 28);
    assert_eq!(len_index(3), 0);
    for &d in &[
        1usize, 2, 3, 4, 5, 6, 7, 8, 9, 100, 4096, 24577, 32767, 32768,
    ] {
        let i = dist_index(d);
        let base = DIST_BASE[i] as usize;
        let span = 1usize << DIST_EXTRA[i];
        assert!(
            (base..base + span).contains(&d),
            "distance {d} went to code {i} with base {base}"
        );
    }
}

#[test]
fn every_distance_lands_in_its_range() {
    for d in 1usize..=32_768 {
        let i = dist_index(d);
        assert!(i < NUM_DIST, "distance {d} gave code {i}");
        let base = DIST_BASE[i] as usize;
        let span = 1usize << DIST_EXTRA[i];
        assert!((base..base + span).contains(&d), "distance {d}");
    }
}

fn kraft(lens: &[u8]) -> u64 {
    lens.iter()
        .filter(|&&l| l > 0)
        .map(|&l| 1u64 << (15 - l))
        .sum()
}

#[test]
fn code_lengths_are_complete_and_bounded() {
    let cases: Vec<Vec<u32>> = vec![
        vec![1, 1],
        vec![5, 1, 1, 1],
        vec![1, 2, 3, 5, 8, 13, 21, 34, 55, 89, 144, 233, 377, 610, 987],
        (0..286u32).map(|i| i + 1).collect(),
        (0..286u32)
            .map(|i| if i % 3 == 0 { 1000 } else { 1 })
            .collect(),
    ];
    for freq in &cases {
        let lens = code_lengths(freq, MAX_CODE_BITS);
        assert!(lens.iter().all(|&l| l <= 15), "a code longer than 15 bits");
        assert_eq!(kraft(&lens), 1 << 15, "the tree is not full: {freq:?}");
        for (i, &f) in freq.iter().enumerate() {
            assert_eq!(f > 0, lens[i] > 0, "symbol {i}: frequency and length disagree");
        }
    }
}

#[test]
fn depth_limit_survives_fibonacci_frequencies() {
    let mut freq = vec![1u32, 1];
    while freq.len() < 40 {
        let n = freq.len();
        freq.push(freq[n - 1] + freq[n - 2]);
    }
    let lens = code_lengths(&freq, MAX_CODE_BITS);
    assert!(lens.iter().all(|&l| l <= 15), "{lens:?}");
    assert_eq!(kraft(&lens), 1 << 15);
}

#[test]
fn clen_tree_stays_within_seven_bits() {
    let mut freq = vec![1u32, 1];
    while freq.len() < NUM_CLEN {
        let n = freq.len();
        freq.push(freq[n - 1] + freq[n - 2]);
    }
    let lens = code_lengths(&freq, MAX_CLEN_BITS);
    assert!(lens.iter().all(|&l| l <= 7), "{lens:?}");
    assert_eq!(kraft(&lens), 1 << 15);
}

#[test]
fn flat_tree_is_a_valid_fallback() {
    for n in 2usize..=286 {
        let mut count = vec![0u32; DEPTH_SLOTS];
        flat_depths(&mut count, MAX_CODE_BITS, n);
        let total: u32 = count.iter().sum();
        assert_eq!(total as usize, n, "leaves lost at n={n}");
        let kraft = kraft_sum(&count, MAX_CODE_BITS);
        assert_eq!(kraft, 1 << MAX_CODE_BITS, "n={n}");
    }
}

#[test]
fn canonical_codes_are_prefix_free() {
    let lens: [u8; 8] = [3, 3, 3, 3, 3, 2, 4, 4];
    let codes = canonical_codes(&lens);
    for i in 0..8 {
        for j in 0..8 {
            if i == j {
                continue;
            }
            let (li, lj) = (lens[i] as u32, lens[j] as u32);
            let short = li.min(lj);
            let mask = (1u32 << short) - 1;
            assert_ne!(
                codes[i] & mask,
                codes[j] & mask,
                "codes {i} and {j} have a common prefix"
            );
        }
    }
}

#[test]
fn more_frequent_symbols_have_no_longer_codes() {
    let freq = vec![40u32, 1, 7, 0, 7, 100];
    let lens = code_lengths(&freq, MAX_CODE_BITS);
    for i in 0..freq.len() {
        for j in 0..freq.len() {
            if freq[j] > 0 && freq[j] < freq[i] {
                assert!(lens[i] <= lens[j]);
            }
        }
    }
    assert_eq!(lens[3], 0);
    assert_eq!(code_lengths(&vec![0u32, 9, 0], 7), vec![0u8, 1, 0]);
    assert_eq!(code_lengths(&vec![0u32, 0], 7), vec![0u8, 0]);
}

#[test]
fn rle_reproduces_the_length_sequence() {
    let cases: Vec<Vec<u8>> = vec![
        vec![0; 300],
        vec![4; 300],
        {
            let mut v = vec![0u8; 140];
            v.extend([3, 3, 3, 3, 3, 3, 3, 0, 0, 5]);
            v
        },
        (0..280u16).map(|i| (i % 16) as u8).collect(),
    ];
    for seq in &cases {
        let (ops, _) = rle_lengths(seq);
        let mut out: Vec<u8> = Vec::new();
        for &(sym, value, _) in &ops {
            match sym {
                16 => {
                    let last = *out.last().unwrap();
                    for _ in 0..(value as usize + 3) {
                        out.push(last);
                    }
                }
                17 => out.extend(std::iter::repeat_n(0u8, value as usize + 3)),
                18 => out.extend(std::iter::repeat_n(0u8, value as usize + 11)),
                v => out.push(v),
            }
        }
        assert_eq!(out, *seq, "the run-length code changed the lengths");
    }
}

#[test]
fn what_is_packed_unpacks_to_the_same() {
    let cases: Vec<Vec<u8>> = vec![
        Vec::new(),
        b"a".to_vec(),
        b"to be or not to be, that is the question".to_vec(),
        vec![7u8; 200_000],
        (0..150_000u32).map(|i| (i.wrapping_mul(2654435761) >> 24) as u8).collect(),
        (0..90_000u32).map(|i| (i / 3 % 200) as u8).collect(),
    ];
    let limits = Limits::permissive();
    for level in [Level::Store, Level::Fast, Level::Default, Level::Best] {
        for data in &cases {
            let packed = deflate(data, level);
            assert_eq!(inflate(&packed, &limits).unwrap(), *data);
            let mut out = vec![1u8, 2, 3];
            let used = inflate_into(&packed, &mut out, &limits).unwrap();
            assert_eq!(used, packed.len());
            assert_eq!(&out[..3], &[1, 2, 3]);
            assert_eq!(&out[3..], &data[..]);
        }
    }
    assert!(deflate(&vec![7u8; 200_000], Level::default()).len() < 400);
}

#[test]
fn known_streams_unpack() {
    let l = Limits::strict();
    // a stored block
    assert_eq!(inflate(&[0x01, 0x03, 0x00, 0xFC, 0xFF, b'a', b'b', b'c'], &l).unwrap(), b"abc");
    // fixed codes
    assert_eq!(inflate(&[0x4B, 0x4C, 0x4A, 0x06, 0x00], &l).unwrap(), b"abc");
    // bytes behind the stream are not read
    let mut out = Vec::new();
    assert_eq!(inflate_into(&[0x4B, 0x4C, 0x4A, 0x06, 0x00, 9, 9], &mut out, &l), Ok(5));
    assert_eq!(deflate(b"", Level::Store), vec![0x01, 0x00, 0x00, 0xFF, 0xFF]);
}

fn kind_of(stream: &[u8]) -> DeflateError {
    match inflate(stream, &Limits::strict()) {
        Err(Error::Deflate { kind, .. }) => kind,
        other => panic!("{other:?}"),
    }
}

#[test]
fn damaged_streams_are_named() {
    assert_eq!(kind_of(&[]), DeflateError::UnexpectedEof);
    assert_eq!(kind_of(&[0x07]), DeflateError::ReservedBlockType);
    assert_eq!(kind_of(&[0x01, 0x03, 0x00, 0xFC, 0xFE]), DeflateError::BadStoredLength);
    assert_eq!(kind_of(&[0x01, 0x03, 0x00, 0xFC, 0xFF, b'a']), DeflateError::UnexpectedEof);
    // a match before any output
    assert_eq!(kind_of(&[0x03, 0x02, 0x00]), DeflateError::DistanceTooFar);
    // 30 distance symbols are the most there are
    assert_eq!(kind_of(&[0xFD, 0xFF, 0x01, 0x00]), DeflateError::InvalidCode);
}

#[test]
fn quotas_are_held_against_the_output() {
    let packed = deflate(&vec![0u8; 1 << 20], Level::Best);
    match inflate(&packed, &Limits::strict()) {
        Err(e) => assert!(matches!(e, Error::Limit(LimitError::CompressionRatio { .. }))),
        Ok(_) => panic!("the ratio was not noticed"),
    }
    let mut l = Limits::permissive();
    l.max_part_bytes = 10;
    assert_eq!(
        inflate(&deflate(b"eleven byte", Level::Fast), &l),
        Err(Error::Limit(LimitError::PartTooLarge { got: 11, max: 10 }))
    );
    l.max_input_bytes = 2;
    assert_eq!(
        inflate(&[1, 2, 3], &l),
        Err(Error::Limit(LimitError::InputTooLarge { got: 3, max: 2 }))
    );
}

#[test]
fn stored_streams_are_exact() {
    assert_eq!(
        deflate(b"abc", Level::Store),
        vec![0x01, 0x03, 0x00, 0xFC, 0xFF, b'a', b'b', b'c']
    );
    let big = vec![7u8; 65_536];
    let r = deflate(&big, Level::Store);
    assert_eq!(r.len(), 65_536 + 10);
    assert_eq!(&r[..5], &[0x00, 0xFF, 0xFF, 0x00, 0x00]);
    assert_eq!(&r[65_540..], &[0x01, 0x01, 0x00, 0xFE, 0xFF, 7]);
}

#[test]
fn nothing_grows_beyond_stored_blocks() {
    let mut x: u32 = 1;
    let noise: Vec<u8> = (0..100_000)
        .map(|_| {
            x = x.wrapping_mul(1_664_525).wrapping_add(1_013_904_223);
            (x >> 24) as u8
        })
        .collect();
    for level in [Level::Store, Level::Fast, Level::Default, Level::Best] {
        let r = deflate(&noise, level);
        assert!(r.len() <= noise.len() + 6 * (noise.len() / 32_768 + 1));
    }
}

#[test]
fn runs_are_folded() {
    let mut seq = vec![0u8; 140];
    seq.extend([3, 3, 3, 3, 3, 3, 3, 0, 0, 5]);
    let (ops, freq) = rle_lengths(&seq);
    assert_eq!(
        ops,
        vec![
            (18, 126, 7),
            (17, 0, 3),
            (3, 0, 0),
            (16, 3, 2),
            (0, 0, 0),
            (0, 0, 0),
            (5, 0, 0),
        ]
    );
    assert_eq!((freq[0], freq[3], freq[5], freq[16], freq[17], freq[18]), (2, 1, 1, 1, 1, 1));
    assert_eq!(freq.iter().sum::<u32>(), 7);
    // No length is too great.
    let (ops, _) = rle_lengths(&vec![0u8; 138 * 1000]);
    assert_eq!(ops, vec![(18, 127, 7); 1000]);
}

#[test]
fn code_lengths_are_the_cheapest() {
    assert_eq!(code_lengths(&vec![1u32, 1, 2, 4], 15), vec![3u8, 3, 2, 1]);
    assert_eq!(code_lengths(&vec![5u32, 0, 5, 5, 5], 15), vec![2u8, 0, 2, 2, 2]);
    for freq in [[1u32, 1, 2, 4], [1, 1, 1, 1], [9, 1, 1, 9], [3, 5, 7, 100], [2, 2, 3, 3]] {
        let cost = |l: &[u32]| -> u32 { freq.iter().zip(l).map(|(f, l)| f * l).sum() };
        let lens: Vec<u32> =
            code_lengths(&freq.to_vec(), 7).iter().map(|&l| u32::from(l)).collect();
        let mut least = u32::MAX;
        for n in 0..5 * 5 * 5 * 5u32 {
            let l = [n % 5 + 1, n / 5 % 5 + 1, n / 25 % 5 + 1, n / 125 + 1];
            if l.iter().map(|&l| 1u32 << (5 - l)).sum::<u32>() <= 32 {
                least = least.min(cost(&l));
            }
        }
        assert_eq!(cost(&lens), least, "{freq:?}");
    }
}

#[test]
fn trees_within_the_limit_stay() {
    let mut count = vec![0u32; DEPTH_SLOTS];
    count[1] = 1;
    count[2] = 1;
    count[3] = 2;
    let before = count.clone();
    limit_depth(&mut count, 3, 4);
    assert_eq!(count, before);
    // A chain of five codes, drawn up to two bits more than it has room for.
    let mut count = vec![0u32; DEPTH_SLOTS];
    count[1] = 1;
    count[2] = 1;
    count[3] = 1;
    count[4] = 2;
    limit_depth(&mut count, 3, 5);
    assert_eq!(count[..5], [0, 1, 0, 4, 0]);
}

#[test]
fn two_symbols_at_least() {
    let mut freq = vec![0u32, 7, 0];
    force_two_symbols(&mut freq);
    assert_eq!(freq, vec![1, 7, 0]);
    let mut freq = vec![0u32, 0, 0];
    force_two_symbols(&mut freq);
    assert_eq!(freq, vec![1, 1, 0]);
    let mut freq = vec![0u32, 3, 4];
    force_two_symbols(&mut freq);
    assert_eq!(freq, vec![0, 3, 4]);
}

#[test]
fn the_longest_match_is_taken() {
    let kinds = |data: &[u8], level: Level| -> Vec<(u16, u16)> {
        tokenize_all(data, level).iter().map(|t| (t.dist(), t.value())).collect()
    };
    for level in [Level::Fast, Level::Default, Level::Best] {
        assert_eq!(
            kinds(b"abcabcabcd", level),
            vec![
                (0, u16::from(b'a')),
                (0, u16::from(b'b')),
                (0, u16::from(b'c')),
                (3, 6),
                (0, u16::from(b'd')),
            ]
        );
    }
    // A match is put off where a longer one begins at the next byte.
    let data = b"abc-bcdef-abcdef";
    assert_eq!(kinds(data, Level::Fast)[10..], [(10, 3), (7, 3)]);
    assert_eq!(kinds(data, Level::Default)[10..], [(0, 97), (7, 5)]);
}

#[test]
fn equal_data_give_equal_streams() {
    let data: Vec<u8> = (0..100_000u32).map(|i| (i % 113 * (i % 7)) as u8).collect();
    for level in [Level::Store, Level::Fast, Level::Default, Level::Best] {
        assert_eq!(deflate(&data, level), deflate(&data.clone(), level));
    }
    // A short text takes the fixed codes.
    assert_eq!(deflate(b"a", Level::Default), vec![0x4b, 0x04, 0x00]);
    assert_eq!(deflate(b"", Level::Fast), vec![0x03, 0x00]);
    // What cannot be packed is stored.
    let noise: Vec<u8> = (0..=255u8).collect();
    let stored = deflate(&noise, Level::Best);
    assert_eq!(stored[..5], [1, 0, 1, 255, 254]);
    assert_eq!(stored[5..], noise[..]);
    // A long text takes codes of its own.
    let text: String = (0..400).map(|i| format!("<c r=\"A{i}\"><v>{}</v></c>", i * 37)).collect();
    let packed = deflate(text.as_bytes(), Level::Default);
    assert_eq!(packed[0] & 7, 5);
    assert!(packed.len() < text.len() / 3);
}
