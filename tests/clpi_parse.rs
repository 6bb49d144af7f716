use bdngsp::clpi::{parse_clpi, parse_cpi, Combined, ParseError};

fn cpi_payload(pid: u16, coarse: &[(u32, u16, u32)], fine: &[(u16, u32)]) -> Vec<u8> {
    let mut b = vec![0u8, 0, 0, 1];
    let header: u64 = ((pid as u64) << 48)
        | (4u64 << 34)
        | ((coarse.len() as u64) << 18)
        | (fine.len() as u64);
    b.extend_from_slice(&header.to_be_bytes());
    let epmap: u32 = 16;
    b.extend_from_slice(&epmap.to_be_bytes());
    b.extend_from_slice(&[0u8, 0]);
    let fine_ptr: u32 = 4 + 8 * coarse.len() as u32;
    b.extend_from_slice(&fine_ptr.to_be_bytes());
    for &(fine_id, pts, spn) in coarse {
        let w: u64 = ((fine_id as u64) << 46) | ((pts as u64) << 32) | (spn as u64);
        b.extend_from_slice(&w.to_be_bytes());
    }
    for &(pts, spn) in fine {
        let w: u32 = ((pts as u32) << 17) | spn;
        b.extend_from_slice(&w.to_be_bytes());
    }
    b
}

fn clpi_file(payload: &[u8]) -> Vec<u8> {
    let mut f = b"HDMV0200".to_vec();
    f.extend_from_slice(&0u32.to_be_bytes());
    f.extend_from_slice(&0u32.to_be_bytes());
    f.extend_from_slice(&40u32.to_be_bytes());
    f.extend_from_slice(&0u32.to_be_bytes());
    f.resize(40, 0);
    f.extend_from_slice(&(payload.len() as u32).to_be_bytes());
    f.extend_from_slice(payload);
    f
}

#[test]
fn merges_coarse_and_fine_entries() {
    let payload = cpi_payload(
        0x1011,
        &[(0, 3, 0x0002_0005), (2, 8, 0x0004_0000)],
        &[(1, 0x10), (2, 0x20), (3, 0x5)],
    );
    let r = parse_cpi(&payload).unwrap();
    assert_eq!(r.stream_pid, 0x1011);
    assert_eq!(
        r.combined,
        vec![
            Combined { pts: (2u64 << 18) + (1 << 8), spn: 0x0002_0000 + 0x10 },
            Combined { pts: (2u64 << 18) + (2 << 8), spn: 0x0002_0000 + 0x20 },
            Combined { pts: (8u64 << 18) + (3 << 8), spn: 0x0004_0000 + 0x5 },
        ]
    );
}

#[test]
fn parsed_offsets_do_not_decrease() {
    let payload = cpi_payload(
        1,
        &[(0, 0, 0), (2, 0, 0x20000), (3, 0, 0x60000)],
        &[(0, 0), (1, 0x1FFFF), (2, 0), (3, 7), (4, 9)],
    );
    let r = parse_cpi(&payload).unwrap();
    assert_eq!(r.combined.len(), 5);
    for w in r.combined.windows(2) {
        assert!(w[0].spn <= w[1].spn);
    }
}

#[test]
fn no_coarse_entries_gives_empty_list() {
    let payload = cpi_payload(7, &[], &[]);
    let r = parse_cpi(&payload).unwrap();
    assert_eq!(r.stream_pid, 7);
    assert!(r.combined.is_empty());
}

#[test]
fn zero_stream_tables_is_an_error() {
    let mut payload = cpi_payload(7, &[(0, 0, 0)], &[(0, 0)]);
    payload[3] = 0;
    assert_eq!(parse_cpi(&payload).err(), Some(ParseError::NoStreamTable));
}

#[test]
fn short_payload_is_truncated() {
    assert_eq!(parse_cpi(&[0, 0, 1]).err(), Some(ParseError::Truncated));
    assert_eq!(parse_cpi(&[0, 0, 0, 1, 0, 0]).err(), Some(ParseError::Truncated));
}

#[test]
fn fine_table_past_end_is_truncated() {
    let mut payload = cpi_payload(7, &[(0, 0, 0)], &[(0, 0), (1, 1)]);
    payload.truncate(payload.len() - 2);
    assert_eq!(parse_cpi(&payload).err(), Some(ParseError::Truncated));
}

#[test]
fn fine_start_past_fine_table_is_rejected() {
    let payload = cpi_payload(7, &[(0, 0, 0), (5, 0, 0x20000)], &[(0, 0), (1, 1)]);
    assert_eq!(parse_cpi(&payload).err(), Some(ParseError::FineIndexOutOfRange));
}

#[test]
fn whole_file_finds_cpi_block() {
    let payload = cpi_payload(0x1011, &[(0, 0, 0)], &[(0, 0), (4, 100)]);
    let file = clpi_file(&payload);
    let r = parse_clpi(&file).unwrap();
    assert_eq!(r.stream_pid, 0x1011);
    assert_eq!(
        r.combined,
        vec![Combined { pts: 0, spn: 0 }, Combined { pts: 4 << 8, spn: 100 }]
    );
}

#[test]
fn whole_file_with_short_cpi_block_is_truncated() {
    let payload = cpi_payload(0x1011, &[(0, 0, 0)], &[(0, 0)]);
    let mut file = clpi_file(&payload);
    file.truncate(file.len() - 1);
    assert_eq!(parse_clpi(&file).err(), Some(ParseError::Truncated));
    assert_eq!(parse_clpi(&file[..10]).err(), Some(ParseError::Truncated));
}
