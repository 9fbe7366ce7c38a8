use rating_select::rating::extract_rating;
use rating_select::scan::{
    locate_packet, next_step, phase_start, scan_slice, LookupStep, PacketScanner, Phase,
    ScanConfig, ScanStatus, DEFAULT_CEILING, DEFAULT_CHUNK_SIZE, DEFAULT_TAIL_WINDOW,
};

const MIB: usize = 1024 * 1024;

fn packet(rating: &str) -> Vec<u8> {
    format!(
        "<x:xmpmeta xmlns:x=\"adobe:ns:meta/\">\n<xmp:Rating>{}</xmp:Rating>\n<xmp:Label>Red</xmp:Label>\n</x:xmpmeta>",
        rating
    )
    .into_bytes()
}

fn filler(n: usize) -> Vec<u8> {
    (0..n).map(|i| (i % 50) as u8 + 33).collect()
}

fn config(chunk_size: usize, tail_window: u64, ceiling: u64) -> ScanConfig {
    ScanConfig { chunk_size, tail_window, ceiling }
}

#[test]
fn default_config_sizes() {
    let c = ScanConfig::default();
    assert_eq!(c.chunk_size, DEFAULT_CHUNK_SIZE);
    assert_eq!(c.chunk_size, 128 * 1024);
    assert_eq!(c.tail_window, DEFAULT_TAIL_WINDOW);
    assert_eq!(c.tail_window, 1024 * 1024);
    assert_eq!(c.ceiling, DEFAULT_CEILING);
    assert_eq!(c.ceiling, 1024 * 1024 * 1024);
}

#[test]
fn phase_start_clamps_to_file_start() {
    assert_eq!(phase_start(10_000, Phase::Tail, 1_000), 9_000);
    assert_eq!(phase_start(500, Phase::Tail, 1_000), 0);
    assert_eq!(phase_start(1_000, Phase::Tail, 1_000), 0);
    assert_eq!(phase_start(10_000, Phase::Full, 1_000), 0);
}

#[test]
fn packet_at_end_found_in_tail_phase() {
    let mut data = filler(10 * MIB);
    let p = packet("7");
    data.extend_from_slice(&p);
    let c = ScanConfig::default();
    let tail = scan_slice(&data, Phase::Tail, &c);
    assert_eq!(tail, Some(p.clone()));
    let found = locate_packet(&data, &c).unwrap();
    assert_eq!(found, p);
    assert_eq!(extract_rating(&found), Ok(7));
}

#[test]
fn packet_at_start_needs_full_phase() {
    let p = packet("3");
    let mut data = p.clone();
    data.extend_from_slice(&filler(2 * MIB));
    let c = ScanConfig::default();
    assert_eq!(scan_slice(&data, Phase::Tail, &c), None);
    assert_eq!(scan_slice(&data, Phase::Full, &c), Some(p.clone()));
    let found = locate_packet(&data, &c).unwrap();
    assert_eq!(extract_rating(&found), Ok(3));
}

#[test]
fn open_without_close_is_not_found() {
    let mut data = filler(5000);
    data.extend_from_slice(b"<x:xmpmeta xmlns:x=\"adobe:ns:meta/\">\n<xmp:Rating>4</xmp:Rating>\n");
    data.extend_from_slice(&filler(5000));
    let c = config(64, 1000, 1 << 30);
    assert_eq!(scan_slice(&data, Phase::Tail, &c), None);
    assert_eq!(scan_slice(&data, Phase::Full, &c), None);
    assert_eq!(locate_packet(&data, &c), None);
}

#[test]
fn packet_outside_tail_window_falls_back() {
    let mut data = filler(3000);
    let p = packet("9");
    data.extend_from_slice(&p);
    data.extend_from_slice(&filler(4000));
    let c = config(100, 2000, 1 << 20);
    assert_eq!(scan_slice(&data, Phase::Tail, &c), None);
    assert_eq!(scan_slice(&data, Phase::Full, &c), Some(p.clone()));
    assert_eq!(locate_packet(&data, &c), Some(p));
}

#[test]
fn ceiling_stops_scan_without_delimiters() {
    let data = filler(10_000);
    let mut scanner = PacketScanner::new(1_000);
    let mut status = ScanStatus::Pending;
    for chunk in data.chunks(300) {
        status = scanner.feed(chunk);
        if status != ScanStatus::Pending {
            break;
        }
    }
    assert_eq!(status, ScanStatus::CapReached);
    assert!(scanner.examined() <= 1_000);
    assert_eq!(scan_slice(&data, Phase::Full, &config(300, 0, 1_000)), None);
}

#[test]
fn ceiling_counts_the_packet_end() {
    let mut data = filler(100);
    let p = packet("2");
    data.extend_from_slice(&p);
    data.extend_from_slice(&filler(100));
    let end = (100 + p.len()) as u64;
    assert_eq!(scan_slice(&data, Phase::Full, &config(7, 0, end)), Some(p.clone()));
    assert_eq!(scan_slice(&data, Phase::Full, &config(7, 0, end - 1)), None);
}

#[test]
fn delimiters_split_across_chunks_are_found() {
    let mut data = filler(37);
    let p = packet("5");
    data.extend_from_slice(&p);
    data.extend_from_slice(&filler(11));
    for chunk_size in 1..=40 {
        let c = config(chunk_size, 0, 1 << 20);
        assert_eq!(scan_slice(&data, Phase::Full, &c), Some(p.clone()));
    }
}

#[test]
fn scanner_reports_packet_when_fed_byte_by_byte() {
    let p = packet("1");
    let mut scanner = PacketScanner::new(1 << 20);
    let mut result = None;
    for (i, b) in p.iter().enumerate() {
        match scanner.feed(std::slice::from_ref(b)) {
            ScanStatus::Pending => assert!(i + 1 < p.len()),
            ScanStatus::Found(found) => {
                result = Some(found);
                break;
            }
            ScanStatus::CapReached => panic!("ceiling reached"),
        }
    }
    assert_eq!(result, Some(p.clone()));
    assert_eq!(scanner.examined(), p.len() as u64);
}

#[test]
fn first_packet_wins() {
    let mut data = packet("1");
    data.extend_from_slice(&filler(10));
    data.extend_from_slice(&packet("8"));
    let c = config(16, 0, 1 << 20);
    assert_eq!(scan_slice(&data, Phase::Full, &c), Some(packet("1")));
}

#[test]
fn packet_keeps_one_copy_of_opening_delimiter() {
    let data = b"xx<x:xmpmeta>body</x:xmpmeta>yy".to_vec();
    let c = config(4, 0, 100);
    assert_eq!(
        scan_slice(&data, Phase::Full, &c),
        Some(b"<x:xmpmeta>body</x:xmpmeta>".to_vec())
    );
}

#[test]
fn closing_delimiter_before_opening_is_ignored() {
    let data = b"</x:xmpmeta><x:xmpmeta>a</x:xmpmeta>".to_vec();
    let c = config(5, 0, 100);
    assert_eq!(
        scan_slice(&data, Phase::Full, &c),
        Some(b"<x:xmpmeta>a</x:xmpmeta>".to_vec())
    );
}

#[test]
fn empty_data_has_no_packet() {
    let c = config(8, 8, 8);
    assert_eq!(scan_slice(&[], Phase::Tail, &c), None);
    assert_eq!(locate_packet(&[], &c), None);
}

#[test]
fn lookup_policy_steps() {
    assert_eq!(next_step(Phase::Tail, None), LookupStep::Scan(Phase::Full));
    assert_eq!(next_step(Phase::Full, None), LookupStep::NotFound);
    assert_eq!(next_step(Phase::Tail, Some(vec![1])), LookupStep::Found(vec![1]));
    assert_eq!(next_step(Phase::Full, Some(vec![2])), LookupStep::Found(vec![2]));
}
