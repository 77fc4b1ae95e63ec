//! Beacon frames: the 802.11 header is read through libwifi, the body's
//! fixed fields are skipped, and the element sequence becomes a fingerprint.
use vstd::prelude::*;
use libwifi::frame::components::FrameControl;
use libwifi::{Addresses, FrameSubType};
use crate::element::{Element, ParseError, elements_view, parse_elements, parse_ies};

verus! {

#[verifier::external_type_specification]
#[verifier::external_body]
pub struct ExFrameControl(FrameControl);

/// Length of the frame control field.
pub const FRAME_CONTROL_LEN: usize = 2;

/// Length of a management header after the frame control: duration, three
/// addresses and sequence control.
pub const MANAGEMENT_HEADER_LEN: usize = 22;

/// Length of a beacon body's fixed fields: timestamp, interval, capability.
pub const FIXED_FIELDS_LEN: usize = 12;

/// One beacon: who sent it, and its fingerprint.
#[derive(Debug)]
pub struct Beacon {
    pub source: [u8; 6],
    pub elements: Vec<Element>,
}

/// Whether the first frame-control byte marks a management frame (type 0)
/// of subtype 8, a beacon.
pub open spec fn is_beacon_control(b: u8) -> bool {
    b / 16 == 8 && (b / 4) % 4 == 0
}

/// Whether `a` is one of the three addresses of the management header of
/// `frame`.
pub open spec fn is_header_address(frame: Seq<u8>, a: Seq<u8>) -> bool {
    a == frame.subrange(4, 10) || a == frame.subrange(10, 16) || a == frame.subrange(16, 22)
}

/// The fingerprint of a beacon body: the fixed fields, then the elements.
pub open spec fn body_elements(body: Seq<u8>) -> Result<Seq<(u8, Seq<u8>)>, ParseError> {
    if body.len() < FIXED_FIELDS_LEN {
        Err(ParseError::TruncatedFixedFields)
    } else {
        parse_ies(body.subrange(FIXED_FIELDS_LEN as int, body.len() as int))
    }
}

/// Relies on libwifi::parsers::parse_frame_control, which reads the two
/// frame-control bytes (subtype in the high four bits of the first byte,
/// then the type, then the version) and fails on fewer than two bytes. The
/// flag tells whether the subtype it found is `FrameSubType::Beacon`.
#[verifier::external_body]
fn frame_control(input: &[u8]) -> (r: Option<(&[u8], FrameControl, bool)>)
    ensures
        r is None <==> input@.len() < FRAME_CONTROL_LEN,
        r matches Some((rest, _, beacon)) ==> rest@ == input@.subrange(
            FRAME_CONTROL_LEN as int,
            input@.len() as int,
        ) && beacon == is_beacon_control(input@[0]),
{
    match libwifi::parsers::parse_frame_control(input) {
        Ok((rest, fc)) => {
            let beacon = matches!(fc.frame_subtype, FrameSubType::Beacon);
            Some((rest, fc, beacon))
        },
        Err(_) => None,
    }
}

/// Relies on libwifi::parsers::parse_management_header, which reads duration,
/// three addresses and sequence control (22 bytes) and fails on fewer, and on
/// `Addresses::src` of its header, which picks one of the three addresses by
/// the to-DS and from-DS flags and is never `None`.
#[verifier::external_body]
fn management_source(fc: FrameControl, input: &[u8]) -> (r: Option<(&[u8], [u8; 6])>)
    ensures
        r is None <==> input@.len() < MANAGEMENT_HEADER_LEN,
        r matches Some((rest, src)) ==> rest@ == input@.subrange(
            MANAGEMENT_HEADER_LEN as int,
            input@.len() as int,
        ) && (src@ == input@.subrange(2, 8) || src@ == input@.subrange(8, 14) || src@
            == input@.subrange(14, 20)),
{
    match libwifi::parsers::parse_management_header(fc, input) {
        Ok((rest, header)) => header.src().map(|m| (rest, m.0)),
        Err(_) => None,
    }
}

/// The fingerprint of a beacon body: the fixed fields are skipped and the
/// element sequence after them is parsed.
pub fn parse_body(body: &[u8]) -> (r: Result<Vec<Element>, ParseError>)
    ensures
        match (r, body_elements(body@)) {
            (Ok(v), Ok(w)) => elements_view(v@) == w,
            (Err(e), Err(f)) => e == f,
            _ => false,
        },
{
    if body.len() < FIXED_FIELDS_LEN {
        return Err(ParseError::TruncatedFixedFields);
    }
    let rest = &body[FIXED_FIELDS_LEN..body.len()];
    assert(rest@ =~= body@.subrange(FIXED_FIELDS_LEN as int, body@.len() as int));
    parse_elements(rest)
}

/// Reads an 802.11 frame that starts at its frame control. A frame that is
/// not a beacon gives `Ok(None)`; a beacon gives its source address and its
/// fingerprint.
pub fn parse(input: &[u8]) -> (r: Result<Option<Beacon>, ParseError>)
    ensures
        input@.len() < 2 ==> r == Err::<Option<Beacon>, ParseError>(ParseError::Header),
        input@.len() >= 2 && !is_beacon_control(input@[0]) ==> r == Ok::<
            Option<Beacon>,
            ParseError,
        >(None),
        input@.len() >= 2 && is_beacon_control(input@[0]) && input@.len() < 24 ==> r == Err::<
            Option<Beacon>,
            ParseError,
        >(ParseError::Header),
        input@.len() >= 24 && is_beacon_control(input@[0]) ==> match (
            r,
            body_elements(input@.subrange(24, input@.len() as int)),
        ) {
            (Ok(Some(b)), Ok(w)) => elements_view(b.elements@) == w && is_header_address(
                input@,
                b.source@,
            ),
            (Err(e), Err(f)) => e == f,
            _ => false,
        },
{
    let (rest, fc, beacon) = match frame_control(input) {
        Some(x) => x,
        None => {
            return Err(ParseError::Header);
        },
    };
    if !beacon {
        return Ok(None);
    }
    let (body, source) = match management_source(fc, rest) {
        Some(x) => x,
        None => {
            return Err(ParseError::Header);
        },
    };
    proof {
        assert(body@ =~= input@.subrange(24, input@.len() as int));
        assert(rest@.subrange(2, 8) =~= input@.subrange(4, 10));
        assert(rest@.subrange(8, 14) =~= input@.subrange(10, 16));
        assert(rest@.subrange(14, 20) =~= input@.subrange(16, 22));
    }
    match parse_body(body) {
        Ok(elements) => Ok(Some(Beacon { source, elements })),
        Err(e) => Err(e),
    }
}

} // verus!
