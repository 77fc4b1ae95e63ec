//! The information-element walk of a beacon body, and the policy that decides
//! which payload bytes of each element take part in a fingerprint.
use vstd::prelude::*;

verus! {

/// A parsed element: its id and the payload bytes that the policy kept.
pub type Element = (u8, Vec<u8>);

/// Why an element sequence could not be read.
#[derive(Debug, Clone, Copy, PartialEq, Eq, Structural)]
pub enum ParseError {
    /// The frame control or management header could not be read.
    Header,
    /// The fixed timestamp, interval and capability fields are cut short.
    TruncatedFixedFields,
    /// An element's id or length byte is missing, or its payload is shorter
    /// than the advertised length.
    TruncatedElement,
    /// A vendor-specific element holds fewer than four bytes.
    TruncatedVendorElement,
    /// An extension element holds no extension id.
    TruncatedExtensionElement,
}

/// What the policy does with an element of a given id.
#[derive(Debug, Clone, Copy, PartialEq, Eq, Structural)]
pub enum IeClass {
    /// The payload is kept verbatim.
    Keep,
    /// The payload is replaced by an empty one.
    Drop,
    /// Vendor specific: the OUI tag decides.
    VendorSpecial,
    /// Extension: the extension id decides.
    ExtensionSpecial,
}

pub const VENDOR_ID: u8 = 221;
pub const EXTENSION_ID: u8 = 255;

/// Ids whose payload does not change between beacons of a stationary access
/// point: SSID, supported rates, country, RSN, extended rates, extended
/// capabilities.
pub open spec fn is_kept_id(id: u8) -> bool {
    id == 0 || id == 1 || id == 7 || id == 48 || id == 50 || id == 127
}

pub open spec fn class_of(id: u8) -> IeClass {
    if id == VENDOR_ID {
        IeClass::VendorSpecial
    } else if id == EXTENSION_ID {
        IeClass::ExtensionSpecial
    } else if is_kept_id(id) {
        IeClass::Keep
    } else {
        IeClass::Drop
    }
}

/// Vendor tags whose content is stable: WMM/WME parameters and Wi-Fi
/// Protected Setup.
pub open spec fn is_stable_vendor_tag(tag: Seq<u8>) -> bool {
    tag == seq![0x00u8, 0x50u8, 0xf2u8, 0x02u8] || tag == seq![0x00u8, 0x50u8, 0xf2u8, 0x04u8]
}

pub open spec fn is_stable_extension(ext: u8) -> bool {
    ext == 35 || ext == 36 || ext == 38 || ext == 39
}

/// The payload that the fingerprint keeps of an element with this id.
pub open spec fn reduced_payload(id: u8, p: Seq<u8>) -> Result<Seq<u8>, ParseError> {
    match class_of(id) {
        IeClass::Keep => Ok(p),
        IeClass::Drop => Ok(Seq::empty()),
        IeClass::VendorSpecial => if p.len() < 4 {
            Err(ParseError::TruncatedVendorElement)
        } else if is_stable_vendor_tag(p.subrange(0, 4)) {
            Ok(p)
        } else {
            Ok(p.subrange(0, 4))
        },
        IeClass::ExtensionSpecial => if p.len() == 0 {
            Err(ParseError::TruncatedExtensionElement)
        } else if is_stable_extension(p[0]) {
            Ok(p)
        } else {
            Ok(seq![p[0]])
        },
    }
}

/// Prepends `prefix` to a successful result; an error passes through.
pub open spec fn prepend(
    prefix: Seq<(u8, Seq<u8>)>,
    r: Result<Seq<(u8, Seq<u8>)>, ParseError>,
) -> Result<Seq<(u8, Seq<u8>)>, ParseError> {
    match r {
        Ok(t) => Ok(prefix + t),
        Err(e) => Err(e),
    }
}

/// The fingerprint of an element sequence: each element is read as id,
/// length and payload, and reduced by the policy. At least one element is
/// read; the walk ends once four or fewer bytes are left, which are the
/// frame's trailer.
pub open spec fn parse_ies(s: Seq<u8>) -> Result<Seq<(u8, Seq<u8>)>, ParseError>
    decreases s.len(),
{
    if s.len() < 2 || s.len() < 2 + s[1] {
        Err(ParseError::TruncatedElement)
    } else {
        let id = s[0];
        let end = 2 + s[1];
        let rest = s.subrange(end, s.len() as int);
        match reduced_payload(id, s.subrange(2, end)) {
            Err(e) => Err(e),
            Ok(p) => if rest.len() <= 4 {
                Ok(seq![(id, p)])
            } else {
                prepend(seq![(id, p)], parse_ies(rest))
            },
        }
    }
}

/// The raw framing of an element sequence, without the policy: each element
/// as read, with its full payload, and the same end rule as `parse_ies`.
pub open spec fn frame_ies(s: Seq<u8>) -> Option<Seq<(u8, Seq<u8>)>>
    decreases s.len(),
{
    if s.len() < 2 || s.len() < 2 + s[1] {
        None
    } else {
        let end = 2 + s[1];
        let rest = s.subrange(end, s.len() as int);
        let e = (s[0], s.subrange(2, end));
        if rest.len() <= 4 {
            Some(seq![e])
        } else {
            match frame_ies(rest) {
                Some(t) => Some(seq![e] + t),
                None => None,
            }
        }
    }
}

pub open spec fn element_view(e: Element) -> (u8, Seq<u8>) {
    (e.0, e.1@)
}

pub open spec fn elements_view(es: Seq<Element>) -> Seq<(u8, Seq<u8>)> {
    es.map_values(|e: Element| element_view(e))
}

/// Every element of a well-formed sequence reduces without error.
pub open spec fn all_reducible(raw: Seq<(u8, Seq<u8>)>) -> bool {
    forall|i: int| 0 <= i < raw.len() ==> (#[trigger] reduced_payload(raw[i].0, raw[i].1)) is Ok
}

/// `out` holds one element per element of `raw`, in the same order, with the
/// same id and the payload that the policy keeps of it.
pub open spec fn reduces_to(raw: Seq<(u8, Seq<u8>)>, out: Seq<(u8, Seq<u8>)>) -> bool {
    &&& out.len() == raw.len()
    &&& forall|i: int|
        #![trigger out[i]]
        0 <= i < out.len() ==> out[i].0 == raw[i].0 && reduced_payload(raw[i].0, raw[i].1) == Ok::<
            Seq<u8>,
            ParseError,
        >(out[i].1)
}

/// The parse succeeds exactly on sequences that frame into elements that all
/// reduce; its output then has one element per framed element, in the same
/// order, with the same id, and with the payload that the policy keeps of it.
pub proof fn lemma_parse_preserves_elements(s: Seq<u8>)
    ensures
        parse_ies(s) is Ok <==> (frame_ies(s) is Some && all_reducible(frame_ies(s)->Some_0)),
        parse_ies(s) is Ok ==> reduces_to(frame_ies(s)->Some_0, parse_ies(s)->Ok_0),
    decreases s.len(),
{
    if s.len() < 2 || s.len() < 2 + s[1] {
    } else {
        let end = 2 + s[1];
        let rest = s.subrange(end, s.len() as int);
        let e = (s[0], s.subrange(2, end));
        let r = reduced_payload(s[0], s.subrange(2, end));
        if rest.len() <= 4 {
            if frame_ies(s) is Some {
                let raw = frame_ies(s)->Some_0;
                assert(raw[0] == e);
                if all_reducible(raw) {
                    assert(reduced_payload(raw[0].0, raw[0].1) is Ok);
                }
                if parse_ies(s) is Ok {
                    let out = parse_ies(s)->Ok_0;
                    assert(out == seq![(s[0], r->Ok_0)]);
                    assert(out[0].1 == r->Ok_0);
                    assert(raw == seq![e]);
                    assert forall|i: int| #![trigger out[i]] 0 <= i < out.len() implies out[i].0
                        == raw[i].0 && reduced_payload(raw[i].0, raw[i].1) == Ok::<
                        Seq<u8>,
                        ParseError,
                    >(out[i].1) by {
                        assert(i == 0);
                    }
                    assert(reduces_to(raw, out));
                }
            }
        } else {
            lemma_parse_preserves_elements(rest);
            if parse_ies(s) is Ok {
                assert(r is Ok);
                assert(parse_ies(rest) is Ok);
            }
            if let Some(t) = frame_ies(rest) {
                let raw = seq![e] + t;
                assert(frame_ies(s) == Some(raw));
                assert(raw[0] == e);
                if all_reducible(raw) {
                    assert(reduced_payload(raw[0].0, raw[0].1) is Ok);
                    assert forall|i: int| 0 <= i < t.len() implies (#[trigger] reduced_payload(
                        t[i].0,
                        t[i].1,
                    )) is Ok by {
                        assert(raw[i + 1] == t[i]);
                    }
                }
                if r is Ok && all_reducible(t) {
                    assert forall|i: int| 0 <= i < raw.len() implies (#[trigger] reduced_payload(
                        raw[i].0,
                        raw[i].1,
                    )) is Ok by {
                        if i > 0 {
                            assert(raw[i] == t[i - 1]);
                        }
                    }
                }
                if parse_ies(s) is Ok {
                    let out = parse_ies(s)->Ok_0;
                    let tail = parse_ies(rest)->Ok_0;
                    let p = r->Ok_0;
                    assert(reduces_to(t, tail));
                    assert(out == seq![(s[0], p)] + tail);
                    assert(out.len() == raw.len());
                    assert forall|i: int| #![trigger out[i]] 0 <= i < out.len() implies out[i].0
                        == raw[i].0 && reduced_payload(raw[i].0, raw[i].1) == Ok::<
                        Seq<u8>,
                        ParseError,
                    >(out[i].1) by {
                        if i > 0 {
                            let j = i - 1;
                            assert(out[i] == tail[j]);
                            assert(raw[i] == t[j]);
                            assert(reduced_payload(t[j].0, t[j].1) == Ok::<Seq<u8>, ParseError>(
                                tail[j].1,
                            ));
                        } else {
                            assert(out[0] == (s[0], p));
                            assert(raw[0] == e);
                        }
                    }
                    assert(reduces_to(raw, out));
                }
            }
        }
    }
}

/// Parsing is a function of the bytes alone: the same bytes give the same
/// fingerprint, or the same error.
pub proof fn lemma_parse_deterministic(a: Seq<u8>, b: Seq<u8>)
    requires
        a == b,
    ensures
        parse_ies(a) == parse_ies(b),
{
}

/// Allow-listed ids keep their whole payload; every id that is neither
/// allow-listed nor vendor specific nor an extension keeps an empty one,
/// whatever the payload holds.
pub proof fn lemma_kept_and_dropped(id: u8, p: Seq<u8>)
    ensures
        is_kept_id(id) ==> reduced_payload(id, p) == Ok::<Seq<u8>, ParseError>(p),
        !is_kept_id(id) && id != VENDOR_ID && id != EXTENSION_ID ==> reduced_payload(id, p)
            == Ok::<Seq<u8>, ParseError>(Seq::<u8>::empty()),
{
}

/// A vendor element tagged `00 50 F2 02` keeps its whole payload; one with a
/// tag outside the stable set keeps exactly its four tag bytes.
pub proof fn lemma_vendor_element(p: Seq<u8>)
    requires
        p.len() >= 4,
    ensures
        p.subrange(0, 4) == seq![0x00u8, 0x50u8, 0xf2u8, 0x02u8] ==> reduced_payload(VENDOR_ID, p)
            == Ok::<Seq<u8>, ParseError>(p),
        !is_stable_vendor_tag(p.subrange(0, 4)) ==> reduced_payload(VENDOR_ID, p) == Ok::<
            Seq<u8>,
            ParseError,
        >(p.subrange(0, 4)),
{
}

/// An extension element with extension id 38 keeps its whole payload; one
/// with extension id 99 keeps only that id byte.
pub proof fn lemma_extension_element(p: Seq<u8>)
    requires
        p.len() >= 1,
    ensures
        p[0] == 38 ==> reduced_payload(EXTENSION_ID, p) == Ok::<Seq<u8>, ParseError>(p),
        p[0] == 99 ==> reduced_payload(EXTENSION_ID, p) == Ok::<Seq<u8>, ParseError>(seq![99u8]),
{
}

/// An element whose advertised length runs past the end of the buffer fails
/// the whole parse with `TruncatedElement`.
pub proof fn lemma_truncated_element(s: Seq<u8>)
    requires
        s.len() >= 2,
        s.len() < 2 + s[1],
    ensures
        parse_ies(s) == Err::<Seq<(u8, Seq<u8>)>, ParseError>(ParseError::TruncatedElement),
{
}

/// Whether the payload of an element with this id is kept verbatim.
pub fn use_ie(id: u8) -> (r: bool)
    ensures
        r == is_kept_id(id),
{
    match id {
        0 | 1 | 7 | 48 | 50 | 127 => true,
        _ => false,
    }
}

/// The policy class of an element id.
pub fn classify(id: u8) -> (r: IeClass)
    ensures
        r == class_of(id),
{
    if id == VENDOR_ID {
        IeClass::VendorSpecial
    } else if id == EXTENSION_ID {
        IeClass::ExtensionSpecial
    } else if use_ie(id) {
        IeClass::Keep
    } else {
        IeClass::Drop
    }
}

fn copy_range(s: &[u8], start: usize, end: usize) -> (r: Vec<u8>)
    requires
        start <= end <= s@.len(),
    ensures
        r@ == s@.subrange(start as int, end as int),
{
    let mut r: Vec<u8> = Vec::new();
    let mut i: usize = start;
    while i < end
        invariant
            start <= i <= end <= s@.len(),
            r@ == s@.subrange(start as int, i as int),
        decreases end - i,
    {
        r.push(s[i]);
        i = i + 1;
        assert(r@ =~= s@.subrange(start as int, i as int));
    }
    r
}

/// The payload bytes kept of an element with id `id` and payload `payload`.
pub fn reduce_payload(id: u8, payload: &[u8]) -> (r: Result<Vec<u8>, ParseError>)
    ensures
        match (r, reduced_payload(id, payload@)) {
            (Ok(v), Ok(w)) => v@ == w,
            (Err(e), Err(f)) => e == f,
            _ => false,
        },
{
    let n = payload.len();
    proof {
        assert(payload@.subrange(0, n as int) =~= payload@);
    }
    match classify(id) {
        IeClass::Keep => Ok(copy_range(payload, 0, n)),
        IeClass::Drop => Ok(Vec::new()),
        IeClass::VendorSpecial => {
            if n < 4 {
                Err(ParseError::TruncatedVendorElement)
            } else {
                let stable = payload[0] == 0x00 && payload[1] == 0x50 && payload[2] == 0xf2 && (
                payload[3] == 0x02 || payload[3] == 0x04);
                proof {
                    let tag = payload@.subrange(0, 4);
                    assert(stable ==> is_stable_vendor_tag(tag)) by {
                        if stable {
                            if payload[3] == 0x02 {
                                assert(tag =~= seq![0x00u8, 0x50u8, 0xf2u8, 0x02u8]);
                            } else {
                                assert(tag =~= seq![0x00u8, 0x50u8, 0xf2u8, 0x04u8]);
                            }
                        }
                    }
                    assert(is_stable_vendor_tag(tag) ==> stable) by {
                        if tag == seq![0x00u8, 0x50u8, 0xf2u8, 0x02u8] {
                            assert(tag[3] == 0x02);
                        }
                        if tag == seq![0x00u8, 0x50u8, 0xf2u8, 0x04u8] {
                            assert(tag[3] == 0x04);
                        }
                    }
                }
                if stable {
                    Ok(copy_range(payload, 0, n))
                } else {
                    Ok(copy_range(payload, 0, 4))
                }
            }
        },
        IeClass::ExtensionSpecial => {
            if n == 0 {
                Err(ParseError::TruncatedExtensionElement)
            } else {
                let ext = payload[0];
                if ext == 35 || ext == 36 || ext == 38 || ext == 39 {
                    Ok(copy_range(payload, 0, n))
                } else {
                    let mut v: Vec<u8> = Vec::new();
                    v.push(ext);
                    assert(v@ =~= seq![ext]);
                    Ok(v)
                }
            }
        },
    }
}

/// Reads the element sequence that starts at the first element's id byte and
/// reduces each element by the policy.
pub fn parse_elements(input: &[u8]) -> (r: Result<Vec<Element>, ParseError>)
    ensures
        match (r, parse_ies(input@)) {
            (Ok(v), Ok(w)) => elements_view(v@) == w,
            (Err(e), Err(f)) => e == f,
            _ => false,
        },
{
    let n = input.len();
    let mut out: Vec<Element> = Vec::new();
    let mut pos: usize = 0;
    assert(input@.subrange(0, n as int) =~= input@);
    loop
        invariant
            n == input@.len(),
            pos <= n,
            parse_ies(input@) == prepend(
                elements_view(out@),
                parse_ies(input@.subrange(pos as int, n as int)),
            ),
        decreases n - pos,
    {
        let ghost s = input@.subrange(pos as int, n as int);
        if n - pos < 2 {
            return Err(ParseError::TruncatedElement);
        }
        let id = input[pos];
        let len = input[pos + 1] as usize;
        assert(s[0] == id && s[1] == len);
        if n - pos - 2 < len {
            return Err(ParseError::TruncatedElement);
        }
        let end = pos + 2 + len;
        let payload = &input[pos + 2..end];
        assert(payload@ =~= s.subrange(2, 2 + len));
        assert(s.subrange(2 + len, s.len() as int) =~= input@.subrange(end as int, n as int));
        match reduce_payload(id, payload) {
            Err(e) => {
                return Err(e);
            },
            Ok(p) => {
                let ghost before = elements_view(out@);
                out.push((id, p));
                assert(elements_view(out@) =~= before + seq![(id, p@)]);
                pos = end;
                if n - pos <= 4 {
                    return Ok(out);
                }
                proof {
                    let r = parse_ies(input@.subrange(pos as int, n as int));
                    if let Ok(t) = r {
                        assert(before + (seq![(id, p@)] + t) =~= (before + seq![(id, p@)]) + t);
                    }
                }
            },
        }
    }
}

} // verus!
