use bdngsp::fcache::{FCached, FileCacheBackend, ReadOutcome};
use bdngsp::predict::PredictedKeyFrame;

fn key(spn: u32) -> PredictedKeyFrame {
    PredictedKeyFrame { number: 0, pts: 0, spn }
}

fn file_bytes(len: usize) -> Vec<u8> {
    (0..len).map(|i| (i * 7 % 251) as u8).collect()
}

fn read_through(
    cursor: &mut FCached,
    backend: &mut FileCacheBackend,
    file: &[u8],
    want: usize,
    loads: &mut usize,
) -> Vec<u8> {
    loop {
        match cursor.read(backend, want) {
            ReadOutcome::Data(v) => return v,
            ReadOutcome::Load(i) => {
                let (a, b) = backend.segment_range(i);
                *loads += 1;
                backend.store_segment(i, file[a as usize..b as usize].to_vec());
            }
        }
    }
}

#[test]
fn segments_follow_entry_points() {
    let backend = FileCacheBackend::new(&[key(5), key(10), key(20)], 5000).unwrap();
    assert_eq!(backend.segment_count(), 3);
    assert_eq!(backend.segment_range(0), (0, 1920));
    assert_eq!(backend.segment_range(1), (1920, 3840));
    assert_eq!(backend.segment_range(2), (3840, 5000));
    assert_eq!(backend.segment_index(0), 0);
    assert_eq!(backend.segment_index(1919), 0);
    assert_eq!(backend.segment_index(1920), 1);
    assert_eq!(backend.segment_index(4999), 2);
}

#[test]
fn out_of_order_boundaries_are_refused() {
    assert!(FileCacheBackend::new(&[key(0), key(20), key(10)], 10000).is_none());
    assert!(FileCacheBackend::new(&[key(0), key(20)], 1000).is_none());
    assert!(FileCacheBackend::new(&[], 1000).is_none());
}

#[test]
fn reads_across_segments_and_stops_at_end() {
    let file = file_bytes(5000);
    let mut backend = FileCacheBackend::new(&[key(0), key(10), key(20)], 5000).unwrap();
    let mut cursor = FCached::new();
    let mut loads = 0;
    cursor.seek(1900);
    let v = read_through(&mut cursor, &mut backend, &file, 100, &mut loads);
    assert_eq!(v, file[1900..2000].to_vec());
    assert_eq!(cursor.seek_head, 2000);
    assert_eq!(loads, 2);
    cursor.seek(4990);
    let v = read_through(&mut cursor, &mut backend, &file, 100, &mut loads);
    assert_eq!(v, file[4990..5000].to_vec());
    assert_eq!(cursor.seek_head, 5000);
    let v = read_through(&mut cursor, &mut backend, &file, 100, &mut loads);
    assert!(v.is_empty());
}

#[test]
fn each_segment_is_loaded_once() {
    let file = file_bytes(5000);
    let mut backend = FileCacheBackend::new(&[key(0), key(10), key(20)], 5000).unwrap();
    let mut cursor = FCached::new();
    let mut loads = 0;
    let mut first = Vec::new();
    for round in 0..3 {
        cursor.seek(0);
        let mut all = Vec::new();
        loop {
            let v = read_through(&mut cursor, &mut backend, &file, 333, &mut loads);
            if v.is_empty() {
                break;
            }
            all.extend_from_slice(&v);
        }
        if round == 0 {
            first = all.clone();
        }
        assert_eq!(all, first);
    }
    assert_eq!(first, file);
    assert_eq!(loads, 3);
}

#[test]
fn missing_segment_is_named_and_cursor_stays() {
    let backend = FileCacheBackend::new(&[key(0), key(10)], 3000).unwrap();
    let mut cursor = FCached::new();
    cursor.seek(2500);
    match cursor.read(&backend, 10) {
        ReadOutcome::Load(i) => assert_eq!(i, 1),
        ReadOutcome::Data(_) => panic!("nothing is cached yet"),
    }
    assert_eq!(cursor.seek_head, 2500);
}

#[test]
fn stored_segment_is_never_replaced() {
    let mut backend = FileCacheBackend::new(&[key(0), key(1)], 400).unwrap();
    assert!(!backend.is_cached(0));
    backend.store_segment(0, vec![1u8; 192]);
    backend.store_segment(0, vec![2u8; 192]);
    assert!(backend.is_cached(0));
    let mut cursor = FCached::new();
    match cursor.read(&backend, 4) {
        ReadOutcome::Data(v) => assert_eq!(v, vec![1u8; 4]),
        ReadOutcome::Load(_) => panic!("segment 0 is cached"),
    }
}
