use rating_select::ring::CircularBuffer;

const OPEN: &[u8] = b"<x:xmpmeta";

fn pushed(size: usize, bytes: &[u8]) -> CircularBuffer {
    let mut ring = CircularBuffer::new(size);
    for &b in bytes {
        ring.push(b);
    }
    ring
}

#[test]
fn new_ring_holds_zeros() {
    let ring = CircularBuffer::new(4);
    assert_eq!(ring.iter(), vec![0, 0, 0, 0]);
    assert!(!ring.contains(b"abcd"));
}

#[test]
fn ring_keeps_latest_bytes_oldest_first() {
    let ring = pushed(3, b"abcde");
    assert_eq!(ring.iter(), b"cde".to_vec());
    assert_eq!(ring.get(0), b'c');
    assert_eq!(ring.get(2), b'e');
    assert!(ring.contains(b"cde"));
    assert!(!ring.contains(b"dec"));
}

#[test]
fn contains_rejects_other_lengths() {
    let ring = pushed(3, b"xyz");
    assert!(!ring.contains(b"yz"));
    assert!(!ring.contains(b"xyzz"));
}

#[test]
fn zero_capacity_ring_ignores_pushes() {
    let mut ring = CircularBuffer::new(0);
    ring.push(7);
    assert_eq!(ring.iter(), Vec::<u8>::new());
    assert!(ring.contains(b""));
}

#[test]
fn split_delimiter_matches_like_whole() {
    let mut stream = b"junk bytes ".to_vec();
    stream.extend_from_slice(OPEN);
    stream.extend_from_slice(b" tail");
    let mut whole = CircularBuffer::new(OPEN.len());
    let mut whole_hits = Vec::new();
    for (i, &b) in stream.iter().enumerate() {
        whole.push(b);
        if whole.contains(OPEN) {
            whole_hits.push(i);
        }
    }
    assert_eq!(whole_hits, vec![11 + OPEN.len() - 1]);
    for split in 0..=stream.len() {
        let (a, b) = stream.split_at(split);
        let mut ring = CircularBuffer::new(OPEN.len());
        let mut hits = Vec::new();
        for (i, &x) in a.iter().chain(b.iter()).enumerate() {
            ring.push(x);
            if ring.contains(OPEN) {
                hits.push(i);
            }
        }
        assert_eq!(hits, whole_hits);
    }
}

#[test]
fn no_match_on_stream_without_delimiter() {
    let mut state: u32 = 12345;
    let mut ring = CircularBuffer::new(OPEN.len());
    let mut window: Vec<u8> = Vec::new();
    for _ in 0..200_000 {
        state = state.wrapping_mul(1103515245).wrapping_add(12345);
        let mut b = (state >> 16) as u8;
        window.push(b);
        if window.len() > OPEN.len() {
            window.remove(0);
        }
        if window.as_slice() == OPEN {
            b = b'#';
            let last = window.len() - 1;
            window[last] = b;
        }
        ring.push(b);
        assert!(!ring.contains(OPEN));
    }
}
