use beacon_print::beacon::{parse, parse_body};
use beacon_print::element::ParseError;
use beacon_print::element::Element;
use beacon_print::tracker::{fingerprint_eq, strip_ssid, count_distinct, Summary, Tracker};

const A: [u8; 6] = [0x02, 0x11, 0x22, 0x33, 0x44, 0x55];
const B: [u8; 6] = [0x02, 0x00, 0x00, 0x00, 0x00, 0x0b];
const C: [u8; 6] = [0x02, 0x00, 0x00, 0x00, 0x00, 0x0c];

fn fp(ssid: &[u8], rates: &[u8]) -> Vec<Element> {
    vec![(0, ssid.to_vec()), (1, rates.to_vec())]
}

/// A beacon frame from `src` (the transmitter address, to-DS and from-DS
/// clear) whose body carries `elements` and a four-byte trailer.
fn beacon_frame(src: [u8; 6], elements: &[u8]) -> Vec<u8> {
    let mut f = vec![0x80, 0x00, 0x00, 0x00];
    f.extend([0xff; 6]);
    f.extend(src);
    f.extend([0x10, 0x20, 0x30, 0x40, 0x50, 0x60]);
    f.extend([0x00, 0x00]);
    f.extend([0u8; 12]);
    f.extend(elements);
    f.extend([0xaa, 0xbb, 0xcc, 0xdd]);
    f
}

#[test]
fn same_fingerprint_repeated_stays_stable() {
    let mut t = Tracker::new();
    for _ in 0..5 {
        t.observe(A, fp(b"net1", &[1, 2]));
    }
    assert!(!t.is_unstable(&A));
    let s = t.summarize();
    assert_eq!(s, Summary { stable: 1, unstable: 0, unique: 1, unique_without_ssid: 1 });
}

#[test]
fn changed_fingerprint_marks_unstable_once() {
    let mut t = Tracker::new();
    t.observe(A, fp(b"net1", &[1, 2]));
    t.observe(A, fp(b"net1", &[1, 3]));
    assert!(t.is_unstable(&A));
    assert_eq!(t.fingerprint(&A), Some(&fp(b"net1", &[1, 3])));
    t.observe(A, fp(b"net1", &[1, 4]));
    assert_eq!(t.summarize().unstable, 1);
    assert_eq!(t.fingerprint(&B), None);
}

#[test]
fn last_value_per_address_is_counted() {
    let mut t = Tracker::new();
    t.observe(A, fp(b"net1", &[0x01, 0x02]));
    t.observe(A, fp(b"net1", &[0x01, 0x02]));
    t.observe(A, fp(b"net1", &[0x01, 0x03]));
    let s = t.summarize();
    assert_eq!(s.stable, 0);
    assert_eq!(s.unstable, 1);
    assert_eq!(s.unique, 1);
    assert_eq!(s.unique_without_ssid, 1);
}

#[test]
fn fingerprints_differing_only_in_ssid() {
    let mut t = Tracker::new();
    t.observe(B, fp(b"home", &[0x82, 0x84]));
    t.observe(C, fp(b"guest", &[0x82, 0x84]));
    let s = t.summarize();
    assert_eq!(s, Summary { stable: 2, unstable: 0, unique: 2, unique_without_ssid: 1 });
}

#[test]
fn empty_tracker_summary() {
    let t = Tracker::new();
    assert_eq!(t.summarize(), Summary { stable: 0, unstable: 0, unique: 0, unique_without_ssid: 0 });
}

#[test]
fn element_order_is_part_of_the_fingerprint() {
    let a = vec![(0u8, b"x".to_vec()), (1u8, vec![2])];
    let b = vec![(1u8, vec![2]), (0u8, b"x".to_vec())];
    assert!(!fingerprint_eq(&a, &b));
    assert!(fingerprint_eq(&a, &a.clone()));
    assert_eq!(count_distinct(&vec![a.clone(), b, a]), 2);
}

#[test]
fn strip_ssid_removes_every_ssid_element() {
    let f = vec![(0u8, b"x".to_vec()), (1u8, vec![2]), (0u8, b"y".to_vec()), (48u8, vec![1])];
    assert_eq!(strip_ssid(&f), vec![(1u8, vec![2]), (48u8, vec![1])]);
}

#[test]
fn beacon_frame_gives_source_and_fingerprint() {
    let frame = beacon_frame(A, &[0, 4, b'n', b'e', b't', b'1', 3, 1, 6]);
    let b = parse(&frame).unwrap().unwrap();
    assert_eq!(b.source, A);
    assert_eq!(b.elements, vec![(0, b"net1".to_vec()), (3, vec![])]);
}

#[test]
fn to_ds_beacon_takes_third_address() {
    let mut frame = beacon_frame(A, &[0, 1, b'x']);
    frame[1] = 0x01;
    let b = parse(&frame).unwrap().unwrap();
    assert_eq!(b.source, [0x10, 0x20, 0x30, 0x40, 0x50, 0x60]);
}

#[test]
fn non_beacon_frames_are_skipped() {
    let mut frame = beacon_frame(A, &[0, 1, b'x']);
    frame[0] = 0x40; // probe request
    assert!(parse(&frame).unwrap().is_none());
    frame[0] = 0x88; // data frame of subtype 8
    assert!(parse(&frame).unwrap().is_none());
}

#[test]
fn short_headers_fail() {
    assert!(matches!(parse(&[0x80]), Err(ParseError::Header)));
    assert!(matches!(parse(&[0x80, 0, 1, 2, 3]), Err(ParseError::Header)));
    assert!(matches!(parse(&[0x40]), Err(ParseError::Header)));
    assert!(matches!(parse(&[0x40, 0]), Ok(None)));
}

#[test]
fn short_fixed_fields_fail() {
    assert_eq!(parse_body(&[0; 11]), Err(ParseError::TruncatedFixedFields));
    let frame = beacon_frame(A, &[]);
    assert!(matches!(parse(&frame[..30]), Err(ParseError::TruncatedFixedFields)));
}

#[test]
fn malformed_frame_leaves_tracker_unchanged() {
    let mut t = Tracker::new();
    assert_eq!(t.observe_frame(&beacon_frame(A, &[0, 4, b'n', b'e', b't', b'1'])), Ok(true));
    let before = t.summarize();
    let bad = beacon_frame(A, &[0, 40, b'n', b'e', b't']);
    assert_eq!(t.observe_frame(&bad), Err(ParseError::TruncatedElement));
    assert_eq!(t.summarize(), before);
    assert!(!t.is_unstable(&A));
    assert_eq!(t.fingerprint(&A), Some(&vec![(0u8, b"net1".to_vec())]));
}

#[test]
fn frames_feed_the_tracker() {
    let mut t = Tracker::new();
    assert_eq!(t.observe_frame(&beacon_frame(B, &[0, 1, b'b', 11, 2, 9, 9])), Ok(true));
    assert_eq!(t.observe_frame(&beacon_frame(B, &[0, 1, b'b', 11, 2, 7, 7])), Ok(true));
    assert_eq!(t.observe_frame(&[0x40, 0x00]), Ok(false));
    assert_eq!(t.observe_frame(&beacon_frame(C, &[0, 1, b'c', 11, 2, 1, 1])), Ok(true));
    assert_eq!(t.summarize(), Summary { stable: 2, unstable: 0, unique: 2, unique_without_ssid: 1 });
    assert_eq!(t.observe_frame(&beacon_frame(B, &[0, 1, b'b', 48, 1, 1])), Ok(true));
    assert_eq!(t.summarize(), Summary { stable: 1, unstable: 1, unique: 2, unique_without_ssid: 2 });
}
