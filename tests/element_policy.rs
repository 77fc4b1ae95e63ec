use beacon_print::element::{classify, parse_elements, reduce_payload, use_ie, IeClass, ParseError};

#[test]
fn allow_listed_ids_are_used() {
    for id in [0u8, 1, 7, 48, 50, 127] {
        assert!(use_ie(id), "id {id}");
    }
    for id in [2u8, 3, 5, 11, 42, 45, 61, 67, 70, 74, 201, 221, 255] {
        assert!(!use_ie(id), "id {id}");
    }
}

#[test]
fn classes_of_ids() {
    assert_eq!(classify(0), IeClass::Keep);
    assert_eq!(classify(48), IeClass::Keep);
    assert_eq!(classify(3), IeClass::Drop);
    assert_eq!(classify(201), IeClass::Drop);
    assert_eq!(classify(221), IeClass::VendorSpecial);
    assert_eq!(classify(255), IeClass::ExtensionSpecial);
}

#[test]
fn kept_payload_is_verbatim() {
    assert_eq!(reduce_payload(0, b"net1"), Ok(b"net1".to_vec()));
    assert_eq!(reduce_payload(1, &[0x82, 0x84]), Ok(vec![0x82, 0x84]));
}

#[test]
fn dropped_payload_is_empty() {
    assert_eq!(reduce_payload(3, &[6]), Ok(vec![]));
    assert_eq!(reduce_payload(11, &[1, 2, 3, 4, 5]), Ok(vec![]));
    assert_eq!(reduce_payload(99, &[9, 9]), Ok(vec![]));
}

#[test]
fn stable_vendor_tags_keep_everything() {
    let wmm = [0x00, 0x50, 0xf2, 0x02, 0x01, 0x01, 0x80];
    assert_eq!(reduce_payload(221, &wmm), Ok(wmm.to_vec()));
    let wps = [0x00, 0x50, 0xf2, 0x04, 0x10, 0x4a];
    assert_eq!(reduce_payload(221, &wps), Ok(wps.to_vec()));
}

#[test]
fn other_vendor_tags_keep_the_tag() {
    let other = [0x00, 0x10, 0x18, 0x02, 0xaa, 0xbb];
    assert_eq!(reduce_payload(221, &other), Ok(vec![0x00, 0x10, 0x18, 0x02]));
    let exact = [0x00, 0x50, 0xf2, 0x01];
    assert_eq!(reduce_payload(221, &exact), Ok(exact.to_vec()));
}

#[test]
fn short_vendor_element_fails() {
    assert_eq!(reduce_payload(221, &[0x00, 0x50, 0xf2]), Err(ParseError::TruncatedVendorElement));
}

#[test]
fn extension_elements() {
    assert_eq!(reduce_payload(255, &[38, 1, 2, 3]), Ok(vec![38, 1, 2, 3]));
    assert_eq!(reduce_payload(255, &[35]), Ok(vec![35]));
    assert_eq!(reduce_payload(255, &[99, 1, 2, 3]), Ok(vec![99]));
    assert_eq!(reduce_payload(255, &[]), Err(ParseError::TruncatedExtensionElement));
}

#[test]
fn elements_keep_count_and_order() {
    let input = [
        0, 4, b'n', b'e', b't', b'1', // ssid
        3, 1, 6, // ds params
        1, 2, 0x82, 0x84, // rates
        255, 2, 99, 7, // extension
        0xde, 0xad, 0xbe, 0xef, // trailer
    ];
    let got = parse_elements(&input).unwrap();
    assert_eq!(
        got,
        vec![(0, b"net1".to_vec()), (3, vec![]), (1, vec![0x82, 0x84]), (255, vec![99])]
    );
}

#[test]
fn parsing_twice_gives_equal_fingerprints() {
    let input = [0, 2, b'a', b'b', 221, 5, 0x00, 0x50, 0xf2, 0x02, 9, 1, 2, 3, 4];
    assert_eq!(parse_elements(&input), parse_elements(&input));
    assert_eq!(
        parse_elements(&input).unwrap(),
        vec![(0, b"ab".to_vec()), (221, vec![0x00, 0x50, 0xf2, 0x02, 9])]
    );
}

#[test]
fn truncated_element_fails() {
    assert_eq!(parse_elements(&[0, 10, 1, 2, 3]), Err(ParseError::TruncatedElement));
    assert_eq!(parse_elements(&[0, 1, 1, 3, 9, 0, 0, 0, 0]), Err(ParseError::TruncatedElement));
    assert_eq!(parse_elements(&[7]), Err(ParseError::TruncatedElement));
    assert_eq!(parse_elements(&[]), Err(ParseError::TruncatedElement));
}

#[test]
fn element_errors_abort_the_walk() {
    let input = [0, 1, b'x', 221, 2, 0x00, 0x50, 1, 2, 3, 4, 5];
    assert_eq!(parse_elements(&input), Err(ParseError::TruncatedVendorElement));
    let input = [255, 0, 1, 0, 1, 2, 3, 4, 5];
    assert_eq!(parse_elements(&input), Err(ParseError::TruncatedExtensionElement));
}

#[test]
fn short_tail_ends_the_walk() {
    assert_eq!(parse_elements(&[48, 0, 1, 2, 3, 4]), Ok(vec![(48, vec![])]));
    assert_eq!(parse_elements(&[48, 0]), Ok(vec![(48, vec![])]));
    assert_eq!(
        parse_elements(&[48, 0, 1, 9, 3, 4, 5]),
        Err(ParseError::TruncatedElement)
    );
}
