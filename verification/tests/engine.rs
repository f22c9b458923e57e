use one_brc::format_output;
use one_brc::merge_tables;
use one_brc::run_single;
use one_brc::scan_window;
use one_brc::find_segment_splits;
use one_brc::pool::make_chunk;
use one_brc::pool::last_newline_pos;
use one_brc::pool::process_chunk;
use one_brc::scan::finish_carry;
use one_brc::scan::scan_buffered;
use one_brc::CustomHashMap;
use one_brc::Pool;
use one_brc::pool::Chunk;

const TABLE_LEN: usize = 32_768;

fn run_pieces(pieces: &[&[u8]]) -> Vec<u8> {
    let mut tables: Vec<CustomHashMap> = Vec::new();
    for piece in pieces {
        let mut map = CustomHashMap::new(TABLE_LEN);
        let consumed = scan_window(&mut map, piece);
        assert_eq!(consumed, piece.len());
        tables.push(map);
    }
    let merged = merge_tables(&tables, TABLE_LEN);
    format_output(&merged)
}

#[test]
fn end_to_end_three_records() {
    let data = b"Hamburg;12.0\nHamburg;14.0\nBerlin;-3.5\n";
    let out = run_single(data, TABLE_LEN);
    assert_eq!(
        out,
        b"{Berlin=-3.5/-3.5/-3.5, Hamburg=12.0/13.0/14.0}".to_vec()
    );
}

#[test]
fn end_to_end_single_reading() {
    let out = run_single(b"Oslo;0.0\n", TABLE_LEN);
    assert_eq!(out, b"{Oslo=0.0/0.0/0.0}".to_vec());
}

#[test]
fn aggregation_matches_hand_computed_statistics() {
    let data = b"Paris;10.0\nLondon;0.0\nParis;20.1\nLondon;0.1\nParis;-5.2\n";
    let out = run_single(data, TABLE_LEN);
    // Paris: min -5.2, max 20.1, mean 24.9 / 3 = 8.3; London: mean 0.05
    // rounds up to 0.1
    assert_eq!(
        out,
        b"{London=0.0/0.1/0.1, Paris=-5.2/8.3/20.1}".to_vec()
    );
}

#[test]
fn mean_on_rounding_boundary_rounds_toward_positive() {
    // 1.25 rounds up to 1.3; -1.25 rounds up to -1.2
    let data = b"Aaa;1.2\nAaa;1.3\nBbb;-1.2\nBbb;-1.3\n";
    let out = run_single(data, TABLE_LEN);
    assert_eq!(out, b"{Aaa=1.2/1.3/1.3, Bbb=-1.3/-1.2/-1.2}".to_vec());
}

#[test]
fn output_identical_for_any_segment_count() {
    let data: &[u8] =
        b"Abc;1.0\nDef;2.0\nAbc;3.0\nGhi;-4.4\nDef;2.2\nJkl;9.9\nAbc;-1.0\nGhi;0.0\n";
    let single = run_single(data, TABLE_LEN);
    let one_piece = run_pieces(&[data]);
    let two_pieces = run_pieces(&[&data[..24], &data[24..]]);
    let four_pieces = run_pieces(&[&data[..8], &data[8..33], &data[33..49], &data[49..]]);
    assert_eq!(single, one_piece);
    assert_eq!(single, two_pieces);
    assert_eq!(single, four_pieces);
}

#[test]
fn merge_is_commutative_on_numeric_fields() {
    let mut a = CustomHashMap::new(64);
    a.absorb(b"AAA", 100);
    a.absorb(b"BBB", 200);
    a.absorb(b"AAA", -50);
    let mut b = CustomHashMap::new(64);
    b.absorb(b"AAA", 5);
    b.absorb(b"CCC", -300);

    let mut ab = CustomHashMap::new(64);
    ab.merge_from(&a);
    ab.merge_from(&b);
    let mut ba = CustomHashMap::new(64);
    ba.merge_from(&b);
    ba.merge_from(&a);
    for i in 0..64 {
        let x = ab.slot(i);
        let y = ba.slot(i);
        assert_eq!(x.min_temp, y.min_temp);
        assert_eq!(x.max_temp, y.max_temp);
        assert_eq!(x.total, y.total);
        assert_eq!(x.count, y.count);
    }
}

#[test]
fn planner_segments_partition_the_file() {
    let data: &[u8] =
        b"Abc;1.0\nDef;2.0\nAbc;3.0\nGhi;-4.4\nDef;2.2\nJkl;9.9\nAbc;-1.0\nGhi;0.0\nMno;5.5\n";
    let file_len = data.len();
    let num_segments = 3usize;
    let ess = file_len / num_segments;
    let mut probes: Vec<Vec<u8>> = Vec::new();
    for i in 1..num_segments {
        let start = i * ess;
        let end = (start + ess).min(file_len);
        probes.push(data[start..end].to_vec());
    }
    let segs = find_segment_splits(file_len, num_segments, &probes);

    assert_eq!(segs.len(), num_segments);
    assert_eq!(segs[0].0, 0);
    assert_eq!(segs[num_segments - 1].1, file_len);
    for i in 0..num_segments - 1 {
        // segments abut, and each non-initial boundary sits just after a
        // record terminator
        assert_eq!(segs[i].1, segs[i + 1].0);
        assert_eq!(data[segs[i].1 - 1], b'\n');
    }
    for seg in &segs {
        assert!(seg.0 <= seg.1);
    }

    // every byte belongs to exactly one segment
    for off in 0..file_len {
        let owners = segs.iter().filter(|s| s.0 <= off && off < s.1).count();
        assert_eq!(owners, 1);
    }

    // scanning the planned segments and merging matches the single pass
    let pieces: Vec<&[u8]> = segs.iter().map(|s| &data[s.0..s.1]).collect();
    assert_eq!(run_pieces(&pieces), run_single(data, TABLE_LEN));
}

#[test]
fn pipelined_chunks_match_single_pass() {
    let data: &[u8] =
        b"Abc;1.0\nDef;2.0\nAbc;3.0\nGhi;-4.4\nDef;2.2\nJkl;9.9\nAbc;-1.0\nGhi;0.0\n";
    // emulate the reader: fill a small buffer, truncate to the last
    // terminator, re-read the remainder from the advanced offset
    let buf_size = 18usize;
    let mut chunks: Pool<Chunk> = Pool::new();
    let mut offset = 0usize;
    while offset < data.len() {
        let filled = buf_size.min(data.len() - offset);
        let buf = data[offset..offset + filled].to_vec();
        assert!(last_newline_pos(&buf, filled).is_some());
        let (chunk, advance) = make_chunk(buf, filled);
        assert_eq!(chunk.buf[chunk.len - 1], b'\n');
        offset += advance;
        chunks.put(chunk);
    }
    chunks.close();

    let mut map = CustomHashMap::new(TABLE_LEN);
    loop {
        match chunks.take() {
            Some(chunk) => process_chunk(&mut map, &chunk),
            None => break,
        }
    }
    assert_eq!(format_output(&map), run_single(data, TABLE_LEN));
}

#[test]
fn buffered_scan_with_carry_matches_single_pass() {
    let data: &[u8] = b"Hamburg;12.0\nBerlin;-3.5\nHamburg;14.0\nOslo;0.0\n";
    // split in the middle of a record so the second window starts with a
    // carried tail
    let mut map = CustomHashMap::new(TABLE_LEN);
    let mut carry: Vec<u8> = Vec::new();
    scan_buffered(&mut map, &mut carry, &data[..17]);
    assert_eq!(carry, b"Berl".to_vec());
    scan_buffered(&mut map, &mut carry, &data[17..]);
    assert!(carry.is_empty());
    finish_carry(&mut map, &carry);
    assert_eq!(format_output(&map), run_single(data, TABLE_LEN));
}

#[test]
fn trailing_record_without_terminator_is_carried_and_flushed() {
    let with_newline = b"Oslo;0.0\nHamburg;12.0\n";
    let without: &[u8] = &with_newline[..with_newline.len() - 1];
    let mut map = CustomHashMap::new(TABLE_LEN);
    let mut carry: Vec<u8> = Vec::new();
    scan_buffered(&mut map, &mut carry, without);
    assert_eq!(carry, b"Hamburg;12.0".to_vec());
    finish_carry(&mut map, &carry);
    assert_eq!(format_output(&map), run_single(with_newline, TABLE_LEN));
}

#[test]
fn empty_table_renders_empty_braces() {
    let map = CustomHashMap::new(64);
    assert_eq!(format_output(&map), b"{}".to_vec());
}

#[test]
fn single_station_extremes() {
    let data = b"Edge;-99.9\nEdge;99.9\n";
    let out = run_single(data, TABLE_LEN);
    assert_eq!(out, b"{Edge=-99.9/0.0/99.9}".to_vec());
}

#[test]
fn output_is_sorted_by_rendered_text() {
    let data = b"Zed;1.0\nMid;2.0\nAnn;3.0\nZed;2.0\n";
    let out = run_single(data, TABLE_LEN);
    assert_eq!(out, b"{Ann=3.0/3.0/3.0, Mid=2.0/2.0/2.0, Zed=1.0/1.5/2.0}".to_vec());
}

#[test]
fn planner_boundaries_follow_the_probe_formula() {
    let data: &[u8] = b"Aaa;1.0\nBbb;2.0\nCcc;3.0\nDdd;4.0\n";
    let file_len = data.len();
    let num_segments = 2usize;
    let ess = file_len / num_segments;
    let probe = data[ess..ess + ess.min(file_len - ess)].to_vec();
    let newline_in_probe = probe.iter().position(|&b| b == b'\n').unwrap();
    let segs = find_segment_splits(file_len, num_segments, &vec![probe]);
    assert_eq!(segs, vec![(0, ess + newline_in_probe + 1), (ess + newline_in_probe + 1, file_len)]);
}
