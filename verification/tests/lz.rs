use lzma_core::lz::aligned_memory::AlignedMemoryI32;
use lzma_core::lz::extend::{extend_match, extend_match_safe};
use lzma_core::lz::hash234::Hash234;
use lzma_core::lz::hc4::HC4;
use lzma_core::lz::lz_encoder::{LZEncoder, MFType, Matches};
use lzma_core::lz::normalize::normalize;

fn encoder() -> LZEncoder<HC4> {
    LZEncoder::new_hc4(4096, 0, 0, 32, 273, 0)
}

fn found(matches: &Matches) -> Vec<(u32, i32)> {
    (0..matches.count as usize)
        .map(|i| (matches.len[i], matches.dist[i]))
        .collect()
}

fn all_matches(encoder: &mut LZEncoder<HC4>) -> Vec<Vec<(u32, i32)>> {
    let mut all = Vec::new();
    while encoder.data.has_enough_data(0) {
        encoder.find_matches();
        assert!(encoder.verify_matches());
        all.push(found(encoder.matches()));
    }
    all
}

#[test]
fn finds_repetitions() {
    let mut encoder = encoder();
    assert!(!encoder.data.is_started());
    assert_eq!(encoder.fill_window(b"abcabcabc"), 9);
    encoder.set_finishing();
    let all = all_matches(&mut encoder);
    assert_eq!(all.len(), 9);
    assert_eq!(all[0], vec![]);
    assert_eq!(all[1], vec![]);
    assert_eq!(all[2], vec![]);
    assert_eq!(all[3], vec![(6, 2)]);
    assert_eq!(all[4], vec![(5, 2)]);
    assert_eq!(all[5], vec![(4, 2)]);
    // Too few bytes are left to look for more.
    assert_eq!(all[6], vec![]);
    assert!(encoder.data.is_started());
    assert_eq!(encoder.data.get_pos(), 8);
    assert_eq!(encoder.data.get_avail(), 1);
    assert_eq!(encoder.data.get_current_byte(), b'c');
    assert_eq!(encoder.data.get_byte_backward(2), b'a');
    assert_eq!(encoder.data.get_byte(0, 1), b'b');
    assert_eq!(encoder.data.get_match_len(2, 1), 1);
}

#[test]
fn finds_short_and_long_matches() {
    let mut encoder = encoder();
    //           0         1         2
    //           0123456789012345678901234
    let input = b"abcdXabYabcZabcdefghabcdQ";
    assert_eq!(encoder.fill_window(input), input.len());
    encoder.set_finishing();
    let all = all_matches(&mut encoder);
    // "ab" again, and then "abc" again.
    assert_eq!(all[5], vec![(2, 4)]);
    assert_eq!(all[8], vec![(2, 2), (3, 7)]);
    // "abc" is near, "abcd" is further away.
    assert_eq!(all[12], vec![(3, 3), (4, 11)]);
    assert_eq!(all[20], vec![(4, 7)]);
}

#[test]
fn skipped_bytes_are_found_later() {
    let mut encoder = encoder();
    encoder.fill_window(b"the quick fox, the quick dog");
    encoder.set_finishing();
    encoder.skip(15);
    encoder.find_matches();
    assert_eq!(found(encoder.matches()), vec![(10, 14)]);
    let mut out = Vec::new();
    encoder.data.copy_uncompressed(&mut out, 16, 9);
    assert_eq!(out, b"the quick");
}

#[test]
fn short_match_before_a_longer_one() {
    let mut encoder = encoder();
    encoder.fill_window(&[1, 2, 3, 4, 5, 6, 1, 2, 7, 1, 2, 3, 4, 5, 8, 9]);
    encoder.skip(9);
    encoder.find_matches();
    assert_eq!(found(encoder.matches()), vec![(2, 2), (5, 8)]);
    assert_eq!(encoder.data.read_pos, 9);
}

/// All that a finder and its window hold.
fn contents(encoder: &LZEncoder<HC4>) -> (Vec<i32>, i32, i32, i32, u32, Vec<u8>) {
    let finder = &encoder.match_finder;
    (
        finder.chain.as_ref().to_vec(),
        finder.cyclic_pos,
        finder.lz_pos,
        encoder.data.read_pos,
        encoder.data.pending_size,
        encoder.data.buf.clone(),
    )
}

#[test]
fn skipping_leaves_what_searching_leaves() {
    let input = b"abcabcdabcdeabcdefabcdefg";
    let mut searching = encoder();
    let mut skipping = encoder();
    let mut at_once = encoder();
    for encoder in [&mut searching, &mut skipping, &mut at_once] {
        encoder.fill_window(input);
        encoder.set_finishing();
    }
    for _ in 0..10 {
        searching.find_matches();
        skipping.skip(1);
        assert!(contents(&searching) == contents(&skipping));
    }
    at_once.skip(10);
    assert!(contents(&at_once) == contents(&skipping));
    // Here the last positions have too few bytes to be taken up.
    skipping.skip(4);
    skipping.skip(11);
    at_once.skip(15);
    assert!(contents(&at_once) == contents(&skipping));
}

#[test]
fn preset_dictionaries_are_searched() {
    let mut encoder = encoder();
    encoder.set_preset_dict(4096, b"hello hello");
    encoder.fill_window(b"hello world");
    encoder.set_finishing();
    encoder.find_matches();
    assert_eq!(found(encoder.matches()), vec![(5, 4), (6, 10)]);
}

#[test]
fn windows_move_on() {
    let mut encoder = encoder();
    let unit: Vec<u8> = (0..1000u32).map(|i| (i * 7 % 251) as u8).collect();
    let mut total = 0usize;
    let mut read = 0usize;
    while total < 2_000_000 {
        let taken = encoder.fill_window(&unit[total % 1000..]);
        assert!(taken > 0);
        total += taken;
        while encoder.data.has_enough_data(0) {
            if read % 97 == 0 {
                encoder.find_matches();
                assert!(encoder.verify_matches());
                if read > 2000 {
                    assert!(encoder.matches().count > 0);
                }
            } else {
                encoder.skip(1);
            }
            read += 1;
        }
    }
    assert!(read > 1_000_000);
}

#[test]
fn flushing_makes_bytes_readable() {
    let mut encoder = encoder();
    encoder.fill_window(b"abcdefgh");
    assert!(!encoder.data.has_enough_data(0));
    encoder.set_flushing();
    assert!(encoder.data.has_enough_data(0));
    encoder.skip(8);
    assert!(!encoder.data.has_enough_data(0));
    encoder.fill_window(b"abcdefgh");
    encoder.set_finishing();
    encoder.find_matches();
    assert_eq!(found(encoder.matches()), vec![(8, 7)]);
}

#[test]
fn wrong_matches_do_not_verify() {
    let mut encoder = encoder();
    encoder.fill_window(b"abcabcabc");
    encoder.set_finishing();
    encoder.skip(3);
    encoder.find_matches();
    assert!(encoder.verify_matches());
    encoder.matches().len[0] = 5;
    assert!(!encoder.verify_matches());
}

#[test]
fn match_finders_have_a_price() {
    assert_eq!(MFType::default(), MFType::HC4);
    // 2047 + 65536 entries for the tables, and the chain.
    assert_eq!(HC4::get_mem_usage(4096), 263 + 4 + 16 + 10);
    assert_eq!(Hash234::get_mem_usage(4096), 263 + 4);
    let window = 4096 + 273 + 2048 + (256 << 10);
    assert_eq!(
        LZEncoder::get_memory_usage(4096, 0, 0, 273, MFType::HC4, 7),
        window + 293
    );
    assert_eq!(
        LZEncoder::get_memory_usage(4096, 0, 0, 273, MFType::BT4, 7),
        window + 7
    );
}

#[test]
fn hash_table_sizes() {
    assert_eq!(Hash234::get_hash4_size(1), 0x10000);
    assert_eq!(Hash234::get_hash4_size(4096), 0x10000);
    assert_eq!(Hash234::get_hash4_size(0x40000), 0x20000);
    assert_eq!(Hash234::get_hash4_size(0x40001), 0x40000);
    assert_eq!(Hash234::get_hash4_size(0x1000001), 0x1000000);
    assert_eq!(Hash234::get_hash4_size(0x2000001), 0x1000000);
    assert_eq!(Hash234::get_hash4_size(0xFFFF_FFFF), 0x4000_0000);
}

#[test]
fn hash_tables_remember_positions() {
    let mut tables = Hash234::new(4096);
    tables.calc_hashes(b"abcd");
    assert_eq!(tables.get_hash2_pos(), 0);
    tables.update_tables(17);
    tables.calc_hashes(b"abce");
    assert_eq!(tables.get_hash2_pos(), 17);
    assert_eq!(tables.get_hash3_pos(), 17);
    assert_eq!(tables.get_hash4_pos(), 0);
    tables.normalize(10);
    assert_eq!(tables.get_hash2_pos(), 7);
    tables.normalize(10);
    assert_eq!(tables.get_hash2_pos(), 0);
}

#[test]
fn positions_are_normalized() {
    let mut positions = [0, 5, 10, 11, 100];
    normalize(&mut positions, 10);
    assert_eq!(positions, [0, 0, 0, 1, 90]);
}

#[test]
fn matches_are_extended() {
    assert_eq!(extend_match_safe(b"abcdef", b"abcxef"), 3);
    assert_eq!(extend_match_safe(b"abc", b"abcdef"), 3);
    assert_eq!(extend_match_safe(b"", b"abc"), 0);
    let buf = b"abcabcabX";
    assert_eq!(extend_match(buf, 3, 1, 3, 6), 5);
    assert_eq!(extend_match(buf, 3, 1, 3, 4), 4);
    assert_eq!(extend_match(buf, 3, 2, 3, 2), 2);
    // The buffer ends before the limit.
    assert_eq!(extend_match(b"aaaa", 2, 0, 1, 10), 2);
}

#[test]
fn memory_comes_in_blocks() {
    let mut table = AlignedMemoryI32::new(17);
    assert_eq!(table.len(), 32);
    assert!(table.as_ref().iter().all(|&value| value == 0));
    table.set(16, -3);
    assert_eq!(table.get(16), -3);
    table.as_mut()[0] = 4;
    assert_eq!(table.get(0), 4);
    assert_eq!(AlignedMemoryI32::new(0).len(), 0);
    assert_eq!(AlignedMemoryI32::new(16).len(), 16);
}
