use one_brc::find_char;
use one_brc::first_match_in_u8x16;
use one_brc::get_u64_key;
use one_brc::hash_3;
use one_brc::load_u8x16_padded;
use one_brc::mix64;
use one_brc::parse_temp;
use one_brc::scanner::scan_bytes;
use one_brc::pool::last_newline_pos;
use one_brc::pool::make_chunk;
use one_brc::split_measurement_string;
use one_brc::Pool;
use one_brc::StationData;

#[test]
fn parse_temp_exact_values() {
    assert_eq!(parse_temp(b"12.0"), 120);
    assert_eq!(parse_temp(b"-3.5"), -35);
    assert_eq!(parse_temp(b"99.9"), 999);
    assert_eq!(parse_temp(b"-99.9"), -999);
    assert_eq!(parse_temp(b"0.0"), 0);
    assert_eq!(parse_temp(b"-0.1"), -1);
    assert_eq!(parse_temp(b"7.3"), 73);
}

#[test]
fn split_measurement_splits_at_separator() {
    let (name, temp) = split_measurement_string(b"Hamburg;12.0");
    assert_eq!(name, b"Hamburg");
    assert_eq!(temp, 120);
    let (name, temp) = split_measurement_string(b"Ulan Bator;-9.9");
    assert_eq!(name, b"Ulan Bator");
    assert_eq!(temp, -99);
}

#[test]
fn scanner_short_window_uses_whole_window() {
    // below the fast-path threshold the whole window is searched
    assert_eq!(find_char(b"ab;cd", b';'), Some(2));
    assert_eq!(find_char(b"abcd", b';'), None);
    assert_eq!(find_char(b"\nabc", b'\n'), Some(0));
}

#[test]
fn scanner_equivalence_at_threshold() {
    // windows at and around the 48-byte fast-path threshold: the two paths
    // return identical offsets
    for target_pos in [0usize, 15, 16, 31, 32, 46, 47] {
        for len in [47usize, 48, 49, 64] {
            if target_pos < len {
                let mut w = vec![b'x'; len];
                w[target_pos] = b';';
                let fast = find_char(&w, b';');
                let scalar = scan_bytes(&w, b';');
                assert_eq!(fast, Some(target_pos));
                assert_eq!(scalar, Some(target_pos));
            }
        }
    }
}

#[test]
fn scanner_fast_path_sees_only_three_lanes() {
    // a delimiter past the 48th byte of a long window is invisible to the
    // fast path but found by the plain search
    let mut w = vec![b'x'; 49];
    w[48] = b';';
    assert_eq!(find_char(&w, b';'), None);
    assert_eq!(scan_bytes(&w, b';'), Some(48));
}

#[test]
fn lane_match_finds_first_hit() {
    let mut lane = vec![b'a'; 16];
    lane[5] = b'\n';
    lane[9] = b'\n';
    assert_eq!(first_match_in_u8x16(&lane, b'\n'), Some(5));
    assert_eq!(first_match_in_u8x16(&lane, b'z'), None);
}

#[test]
fn padded_lane_loads_prefix_and_zeroes() {
    let lane = load_u8x16_padded(b"abc");
    assert_eq!(lane.len(), 16);
    assert_eq!(&lane[..3], b"abc");
    assert!(lane[3..].iter().all(|&b| b == 0));
    let full = load_u8x16_padded(&[7u8; 16]);
    assert_eq!(full, vec![7u8; 16]);
}

#[test]
fn fingerprint_key_packs_boundary_bytes_and_length() {
    assert_eq!(
        get_u64_key(b"abc"),
        u64::from_le_bytes([b'a', b'b', b'c', b'a', b'b', b'c', 3, 0])
    );
    assert_eq!(
        get_u64_key(b"Hamburg"),
        u64::from_le_bytes([b'H', b'a', b'm', b'u', b'r', b'g', 7, 0])
    );
}

#[test]
fn mixer_matches_the_finalizer_formula() {
    // cross-check the wrapping multiplications against wide arithmetic
    for x in [0u64, 1, 42, 0xdeadbeef, u64::MAX] {
        let a = x ^ (x >> 30);
        let b = ((a as u128 * 0xbf58476d1ce4e5b9u128) & 0xffff_ffff_ffff_ffff) as u64;
        let c = b ^ (b >> 27);
        let d = ((c as u128 * 0x94d049bb133111ebu128) & 0xffff_ffff_ffff_ffff) as u64;
        assert_eq!(mix64(x), d ^ (d >> 31));
    }
    // the mixer maps zero to zero and diffuses a single bit
    assert_eq!(mix64(0), 0);
    assert_ne!(mix64(1), 1);
}

#[test]
fn seed_hash_stays_in_seed_table() {
    for seed in [0u64, 1, 384, 99_991] {
        let h = hash_3(b"Hamburg", seed);
        assert!(h < 32_768);
    }
    assert_eq!(
        hash_3(b"Hamburg", 384),
        mix64(get_u64_key(b"Hamburg")).wrapping_mul(384) % 32_768
    );
}

#[test]
fn pool_hands_back_items_and_closes() {
    let mut pool: Pool<u32> = Pool::new();
    pool.put(1);
    pool.put(2);
    pool.put(3);
    // most recently returned first
    assert_eq!(pool.take(), Some(3));
    assert_eq!(pool.take(), Some(2));
    pool.put(9);
    assert_eq!(pool.take(), Some(9));
    pool.close();
    // a closed pool still drains, then signals the end
    assert_eq!(pool.take(), Some(1));
    assert_eq!(pool.take(), None);
    assert_eq!(pool.take(), None);
}

#[test]
fn rendered_statistics_use_one_fractional_digit() {
    let mut sd = StationData::new();
    sd.add_temp(-35, b"Berlin");
    sd.add_temp(120, b"Berlin");
    assert_eq!(sd.mean_rounded(), 43); // 8.5 / 2 = 4.25, rounds up to 4.3
    assert_eq!(sd.format_data_point(), b"Berlin=-3.5/4.3/12.0".to_vec());
}

#[test]
fn chunk_truncates_to_last_terminator() {
    let buf = b"Abc;1.0\nDef;2.0\nGh".to_vec();
    assert_eq!(last_newline_pos(&buf, buf.len()), Some(15));
    let filled = buf.len();
    let (chunk, advance) = make_chunk(buf, filled);
    assert_eq!(advance, 16);
    assert_eq!(chunk.len, 16);
    assert_eq!(&chunk.buf[..chunk.len], b"Abc;1.0\nDef;2.0\n");
}
