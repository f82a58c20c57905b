//! Discovery of packets, events and string enumerations in the image.
use vstd::prelude::*;
use crate::extractor::{ExtractedField, FieldShape, fields_view};
use crate::matching::{regex_byte_captures, regex_captures_bytes};
use crate::names::{NameSet, sorted_names, strictly_sorted, lemma_sorted_names};
use crate::pe::{PeImage, utf8_str};
use crate::rtti::{RttiEngine, TypeDescriptor};
use crate::text::{
    all_digits, chars_of, contains_seq, contains_str, ends_with_str, has_prefix, has_suffix, is_digit,
    last_segment, last_segment_chars, owned, parse_u32, parse_u32_spec, slice_of, starts_with_str,
    string_of, trim, trimmed,
};
use crate::type_parser::{decompose_spec, decompose_type};

verus! {

/// A packet or event type found in the image.
#[derive(Debug, Clone, PartialEq, Eq)]
pub struct PacketDescriptor {
    pub opcode: u32,
    pub request_full_name: String,
    pub request_kind: String,
    pub response_full_name: String,
    pub response_kind: String,
    pub is_special: bool,
    pub special_name: Option<String>,
    pub base_kind: Option<String>,
    pub special_request_fields: Vec<ExtractedField>,
}

/// The abstract value of a [`PacketDescriptor`].
pub struct DescShape {
    pub opcode: u32,
    pub request_full_name: Seq<char>,
    pub request_kind: Seq<char>,
    pub response_full_name: Seq<char>,
    pub response_kind: Seq<char>,
    pub is_special: bool,
    pub special_name: Option<Seq<char>>,
    pub base_kind: Option<Seq<char>>,
    pub special_request_fields: Seq<FieldShape>,
}

impl View for PacketDescriptor {
    type V = DescShape;

    open spec fn view(&self) -> DescShape {
        DescShape {
            opcode: self.opcode,
            request_full_name: self.request_full_name@,
            request_kind: self.request_kind@,
            response_full_name: self.response_full_name@,
            response_kind: self.response_kind@,
            is_special: self.is_special,
            special_name: self.special_name.deep_view(),
            base_kind: self.base_kind.deep_view(),
            special_request_fields: fields_view(self.special_request_fields@),
        }
    }
}

/// The views of a list of descriptors.
pub open spec fn descs_view(s: Seq<PacketDescriptor>) -> Seq<DescShape> {
    s.map_values(|d: PacketDescriptor| d@)
}

/// Why the protocol could not be scanned.
#[derive(Debug, Clone, Copy, PartialEq, Eq, Structural)]
pub enum ScanError {
    /// A search pattern does not compile.
    InvalidPattern,
    /// A captured group is missing or is not UTF-8 text.
    UnreadableCapture,
}

/// The protocol found in the image: its packets and events (each in
/// ascending order of opcode) and its string enumeration values.
pub struct ProtocolScanner {
    pub packets: Vec<PacketDescriptor>,
    pub events: Vec<PacketDescriptor>,
    pub string_enums: Vec<String>,
}

// ---------------------------------------------------------------------------
// Type names in templates
// ---------------------------------------------------------------------------

/// A captured type name without surrounding blanks and without a leading
/// `struct ` or `class `.
pub open spec fn clean_type_spec(s: Seq<char>) -> Seq<char> {
    let t = trim(s);
    let u = if has_prefix(t, "struct "@) {
        t.subrange(7, t.len() as int)
    } else if has_prefix(t, "class "@) {
        t.subrange(6, t.len() as int)
    } else {
        t
    };
    trim(u)
}

/// Cleans a captured type name (see [`clean_type_spec`]).
pub fn clean_type_name(s: &str) -> (r: String)
    ensures
        r@ == clean_type_spec(s@),
{
    let cs = chars_of(s);
    let t = trimmed(&cs);
    proof {
        reveal_strlit("struct ");
        reveal_strlit("class ");
    }
    let u = if starts_with_str(&t, "struct ") {
        slice_of(&t, 7, t.len())
    } else if starts_with_str(&t, "class ") {
        slice_of(&t, 6, t.len())
    } else {
        t
    };
    let v = trimmed(&u);
    string_of(&v)
}

// ---------------------------------------------------------------------------
// Descriptors from pattern captures
// ---------------------------------------------------------------------------

/// The pattern of a request/response packet template in the image.
pub const PACKET_PATTERN: &'static str = r"Api::OneMe::Packets::CommonPacket<(\d+)\s*,\s*(?:struct\s+|class\s+)?([^,>]+)\s*,\s*(?:struct\s+|class\s+)?([^,>]+)";

/// The pattern of an event template in the image.
pub const EVENT_PATTERN: &'static str = r"CommonEvent<(\d+)\s*,\s*(?:struct\s+|class\s+)?([^,>]+)\s*,\s*(?:struct\s+|class\s+)?([^,>]+)>";

/// The descriptor of a packet or event template with opcode `op` and the
/// captured request and response names.
pub open spec fn common_descriptor(op: u32, req: Seq<char>, resp: Seq<char>) -> DescShape {
    let rq = clean_type_spec(req);
    let rs = clean_type_spec(resp);
    DescShape {
        opcode: op,
        request_full_name: rq,
        request_kind: last_segment(rq),
        response_full_name: rs,
        response_kind: last_segment(rs),
        is_special: false,
        special_name: None,
        base_kind: None,
        special_request_fields: seq![],
    }
}

/// The text of capture group `k`, if the group took part and is UTF-8.
pub open spec fn group_text(c: Seq<Option<Seq<u8>>>, k: int) -> Option<Seq<char>> {
    if 0 <= k < c.len() {
        match c[k] {
            Some(b) => if vstd::utf8::valid_utf8(b) {
                Some(vstd::utf8::decode_utf8(b))
            } else {
                None
            },
            None => None,
        }
    } else {
        None
    }
}

/// Some descriptor of the list has opcode `op`.
pub open spec fn has_opcode(list: Seq<DescShape>, op: u32) -> bool {
    exists|i: int| 0 <= i < list.len() && (#[trigger] list[i]).opcode == op
}

/// The opcodes ascend strictly.
pub open spec fn opcodes_ascending(list: Seq<DescShape>) -> bool {
    forall|i: int, j: int| 0 <= i < j < list.len() ==> (#[trigger] list[i]).opcode < (#[trigger] list[j]).opcode
}

/// `d` put in its place in a list ascending by opcode.
pub open spec fn insert_desc(list: Seq<DescShape>, d: DescShape) -> Seq<DescShape>
    decreases list.len(),
{
    if list.len() == 0 {
        seq![d]
    } else if d.opcode < list[0].opcode {
        seq![d] + list
    } else {
        seq![list[0]] + insert_desc(list.drop_first(), d)
    }
}

/// `d` added to a list ascending by opcode, unless its opcode is taken.
pub open spec fn add_desc(list: Seq<DescShape>, d: DescShape) -> Seq<DescShape> {
    if has_opcode(list, d.opcode) {
        list
    } else {
        insert_desc(list, d)
    }
}

/// The descriptors found in the first captures: each capture's opcode must
/// be text, captures whose opcode does not parse or is already taken are
/// passed over, and the request and response names must then be text.
pub open spec fn scan_captures(caps: Seq<Seq<Option<Seq<u8>>>>) -> Result<Seq<DescShape>, ScanError>
    decreases caps.len(),
{
    if caps.len() == 0 {
        Ok(seq![])
    } else {
        match scan_captures(caps.drop_last()) {
            Err(e) => Err(e),
            Ok(list) => {
                let c = caps.last();
                match group_text(c, 1) {
                    None => Err(ScanError::UnreadableCapture),
                    Some(t1) => match parse_u32_spec(t1) {
                        None => Ok(list),
                        Some(op) => if has_opcode(list, op) {
                            Ok(list)
                        } else {
                            match (group_text(c, 2), group_text(c, 3)) {
                                (Some(a), Some(b)) => Ok(insert_desc(list, common_descriptor(op, a, b))),
                                _ => Err(ScanError::UnreadableCapture),
                            }
                        },
                    },
                }
            },
        }
    }
}

proof fn lemma_insert_desc(list: Seq<DescShape>, d: DescShape, k: int)
    requires
        opcodes_ascending(list),
        !has_opcode(list, d.opcode),
        0 <= k <= list.len(),
        forall|i: int| 0 <= i < k ==> (#[trigger] list[i]).opcode < d.opcode,
        forall|i: int| k <= i < list.len() ==> d.opcode < (#[trigger] list[i]).opcode,
    ensures
        insert_desc(list, d) == list.insert(k, d),
        opcodes_ascending(list.insert(k, d)),
        has_opcode(list.insert(k, d), d.opcode),
    decreases list.len(),
{
    if list.len() > 0 && k > 0 {
        let t = list.drop_first();
        assert forall|i: int| 0 <= i < k - 1 implies (#[trigger] t[i]).opcode < d.opcode by {
            assert(t[i] == list[i + 1]);
        }
        assert forall|i: int| k - 1 <= i < t.len() implies d.opcode < (#[trigger] t[i]).opcode by {
            assert(t[i] == list[i + 1]);
        }
        assert(!has_opcode(t, d.opcode)) by {
            if has_opcode(t, d.opcode) {
                let i = choose|i: int| 0 <= i < t.len() && (#[trigger] t[i]).opcode == d.opcode;
                assert(list[i + 1].opcode == d.opcode);
            }
        }
        lemma_insert_desc(t, d, k - 1);
        assert(list.insert(k, d) =~= seq![list[0]] + t.insert(k - 1, d));
    } else if list.len() > 0 {
        assert(list.insert(0, d) =~= seq![d] + list);
    } else {
        assert(list.insert(0, d) =~= seq![d]);
    }
    let r = list.insert(k, d);
    assert(r[k] == d);
}

proof fn lemma_scan_error_stays(caps: Seq<Seq<Option<Seq<u8>>>>, n: int)
    requires
        0 <= n <= caps.len(),
        scan_captures(caps.take(n)) is Err,
    ensures
        scan_captures(caps) == scan_captures(caps.take(n)),
    decreases caps.len() - n,
{
    if n < caps.len() {
        assert(caps.take(n + 1).drop_last() =~= caps.take(n));
        lemma_scan_error_stays(caps, n + 1);
    } else {
        assert(caps.take(n) =~= caps);
    }
}

/// Puts `d` in its place in a list ascending by opcode, unless its opcode is
/// taken (see [`add_desc`]).
pub fn add_descriptor(list: &mut Vec<PacketDescriptor>, d: PacketDescriptor)
    requires
        opcodes_ascending(descs_view(old(list)@)),
    ensures
        opcodes_ascending(descs_view(final(list)@)),
        descs_view(final(list)@) == add_desc(descs_view(old(list)@), d@),
{
    let ghost lv = descs_view(list@);
    let mut k: usize = 0;
    while k < list.len() && list[k].opcode < d.opcode
        invariant
            k <= list.len(),
            lv == descs_view(list@),
            opcodes_ascending(lv),
            forall|i: int| 0 <= i < k ==> (#[trigger] lv[i]).opcode < d.opcode,
        decreases list.len() - k,
    {
        assert(lv[k as int] == list[k as int]@);
        k = k + 1;
    }
    if k < list.len() && list[k].opcode == d.opcode {
        assert(lv[k as int].opcode == d.opcode);
        assert(has_opcode(lv, d.opcode));
        return;
    }
    proof {
        assert forall|i: int| k <= i < lv.len() implies d.opcode < (#[trigger] lv[i]).opcode by {
            assert(lv[k as int] == list[k as int]@);
            if i > k {
                assert(lv[k as int].opcode < lv[i].opcode);
            }
        }
        assert(!has_opcode(lv, d.opcode)) by {
            if has_opcode(lv, d.opcode) {
                let i = choose|i: int| 0 <= i < lv.len() && (#[trigger] lv[i]).opcode == d.opcode;
            }
        }
        lemma_insert_desc(lv, d@, k as int);
    }
    let ghost dv = d@;
    list.insert(k, d);
    assert(descs_view(list@) =~= lv.insert(k as int, dv));
}

fn group_str(c: &Vec<Option<Vec<u8>>>, k: usize) -> (r: Option<String>)
    ensures
        r.deep_view() == group_text(c.deep_view(), k as int),
{
    if k >= c.len() {
        return None;
    }
    match &c[k] {
        Some(b) => {
            assert(c.deep_view()[k as int] == Some(b@));
            match utf8_str(b.as_slice()) {
                Some(s) => Some(owned(s)),
                None => None,
            }
        },
        None => None,
    }
}

/// The descriptors found in the captures of a template pattern, ascending
/// by opcode (see [`scan_captures`]).
pub fn descriptors_from_captures(caps: &Vec<Vec<Option<Vec<u8>>>>) -> (r: Result<Vec<PacketDescriptor>, ScanError>)
    ensures
        match r {
            Ok(v) => scan_captures(caps.deep_view()) == Ok::<Seq<DescShape>, ScanError>(descs_view(v@)),
            Err(e) => scan_captures(caps.deep_view()) == Err::<Seq<DescShape>, ScanError>(e),
        },
{
    let ghost cv = caps.deep_view();
    let mut list: Vec<PacketDescriptor> = Vec::new();
    let mut i: usize = 0;
    assert(cv.take(0) =~= Seq::<Seq<Option<Seq<u8>>>>::empty());
    assert(descs_view(list@) =~= Seq::<DescShape>::empty());
    while i < caps.len()
        invariant
            i <= caps.len(),
            cv == caps.deep_view(),
            scan_captures(cv.take(i as int)) == Ok::<Seq<DescShape>, ScanError>(descs_view(list@)),
            opcodes_ascending(descs_view(list@)),
        decreases caps.len() - i,
    {
        let c = &caps[i];
        assert(cv.take(i + 1).drop_last() =~= cv.take(i as int));
        assert(cv.take(i + 1).last() == c.deep_view());
        let t1 = match group_str(c, 1) {
            Some(t) => t,
            None => {
                proof {
                    lemma_scan_error_stays(cv, i + 1);
                }
                return Err(ScanError::UnreadableCapture);
            },
        };
        match parse_u32(t1.as_str()) {
            None => {},
            Some(op) => {
                let mut taken = false;
                let mut k: usize = 0;
                while k < list.len()
                    invariant
                        k <= list.len(),
                        taken == exists|q: int| 0 <= q < k && (#[trigger] descs_view(list@)[q]).opcode == op,
                    decreases list.len() - k,
                {
                    assert(descs_view(list@)[k as int] == list[k as int]@);
                    if list[k].opcode == op {
                        taken = true;
                    }
                    k = k + 1;
                }
                if !taken {
                    let req = match group_str(c, 2) {
                        Some(t) => t,
                        None => {
                            proof {
                                lemma_scan_error_stays(cv, i + 1);
                            }
                            return Err(ScanError::UnreadableCapture);
                        },
                    };
                    let resp = match group_str(c, 3) {
                        Some(t) => t,
                        None => {
                            proof {
                                lemma_scan_error_stays(cv, i + 1);
                            }
                            return Err(ScanError::UnreadableCapture);
                        },
                    };
                    let rq = clean_type_name(req.as_str());
                    let rs = clean_type_name(resp.as_str());
                    let rqc = chars_of(rq.as_str());
                    let rsc = chars_of(rs.as_str());
                    let rk = last_segment_chars(&rqc);
                    let sk = last_segment_chars(&rsc);
                    let d = PacketDescriptor {
                        opcode: op,
                        request_full_name: rq,
                        request_kind: string_of(&rk),
                        response_full_name: rs,
                        response_kind: string_of(&sk),
                        is_special: false,
                        special_name: None,
                        base_kind: None,
                        special_request_fields: Vec::new(),
                    };
                    assert(fields_view(d.special_request_fields@) =~= Seq::<FieldShape>::empty());
                    assert(d@ == common_descriptor(op, req@, resp@));
                    add_descriptor(&mut list, d);
                }
            },
        }
        i = i + 1;
    }
    assert(cv.take(caps.len() as int) =~= cv);
    Ok(list)
}

/// What scanning the `.rdata` section with `pattern` gives: nothing when
/// there is no readable `.rdata`, else the descriptors of the captures.
pub open spec fn scan_with(pe_rdata: Option<Seq<u8>>, pattern: Seq<char>) -> Result<Seq<DescShape>, ScanError> {
    match pe_rdata {
        None => Ok(seq![]),
        Some(b) => match regex_byte_captures(pattern, b) {
            None => Err(ScanError::InvalidPattern),
            Some(c) => scan_captures(c),
        },
    }
}

fn scan_descriptors(pe: &PeImage, pattern: &str) -> (r: Result<Vec<PacketDescriptor>, ScanError>)
    ensures
        match r {
            Ok(v) => scan_with(pe.section_spec_data(".rdata"@), pattern@) == Ok::<Seq<DescShape>, ScanError>(
                descs_view(v@),
            ),
            Err(e) => scan_with(pe.section_spec_data(".rdata"@), pattern@) == Err::<Seq<DescShape>, ScanError>(e),
        },
{
    match pe.section_data(".rdata") {
        None => {
            let v: Vec<PacketDescriptor> = Vec::new();
            assert(descs_view(v@) =~= Seq::<DescShape>::empty());
            Ok(v)
        },
        Some(rdata) => match regex_captures_bytes(pattern, rdata) {
            None => Err(ScanError::InvalidPattern),
            Some(caps) => descriptors_from_captures(&caps),
        },
    }
}

/// The request/response packets, ascending by opcode.
pub fn scan_common_packets(pe: &PeImage) -> (r: Result<Vec<PacketDescriptor>, ScanError>)
    ensures
        match r {
            Ok(v) => scan_with(pe.section_spec_data(".rdata"@), PACKET_PATTERN@) == Ok::<Seq<DescShape>, ScanError>(
                descs_view(v@),
            ),
            Err(e) => scan_with(pe.section_spec_data(".rdata"@), PACKET_PATTERN@) == Err::<Seq<DescShape>, ScanError>(e),
        },
{
    scan_descriptors(pe, PACKET_PATTERN)
}

/// The events, ascending by opcode.
pub fn scan_common_events(pe: &PeImage) -> (r: Result<Vec<PacketDescriptor>, ScanError>)
    ensures
        match r {
            Ok(v) => scan_with(pe.section_spec_data(".rdata"@), EVENT_PATTERN@) == Ok::<Seq<DescShape>, ScanError>(
                descs_view(v@),
            ),
            Err(e) => scan_with(pe.section_spec_data(".rdata"@), EVENT_PATTERN@) == Err::<Seq<DescShape>, ScanError>(e),
        },
{
    scan_descriptors(pe, EVENT_PATTERN)
}

// ---------------------------------------------------------------------------
// Special packets
// ---------------------------------------------------------------------------

/// The field list of the ping payload: a single optional `interactive` flag.
pub open spec fn ping_fields_spec() -> Seq<FieldShape> {
    seq![FieldShape { name: "interactive"@, field_type: decompose_spec("bool"@), required: false }]
}

/// The fields of the ping payload, which no initializer registers.
pub fn ping_payload_fields() -> (r: Vec<ExtractedField>)
    ensures
        fields_view(r@) == ping_fields_spec(),
{
    let mut v: Vec<ExtractedField> = Vec::new();
    v.push(ExtractedField { name: owned("interactive"), field_type: decompose_type("bool"), required: false });
    assert(fields_view(v@) =~= ping_fields_spec());
    v
}

/// A type descriptor of a packet creator for a ping event or packet.
pub open spec fn is_ping_creator(n: Seq<char>) -> bool {
    contains_seq(n, "Creator<"@) && contains_seq(n, "Api::OneMe::Packets::"@) && (contains_seq(
        n,
        "BaseEvent"@,
    ) || contains_seq(n, "BasePacket"@)) && contains_seq(n, "Ping"@)
}

/// The number of ping creators among the type descriptors.
pub open spec fn ping_creator_count(tds: Seq<TypeDescriptor>) -> nat
    decreases tds.len(),
{
    if tds.len() == 0 {
        0
    } else {
        ping_creator_count(tds.drop_last()) + if is_ping_creator(tds.last().demangled_name@) {
            1nat
        } else {
            0nat
        }
    }
}

/// The descriptor of the special ping event (opcode 1).
pub open spec fn ping_descriptor() -> DescShape {
    DescShape {
        opcode: 1,
        request_full_name: "Api::OneMe::Packets::Ping::Payload"@,
        request_kind: "Payload"@,
        response_full_name: ""@,
        response_kind: ""@,
        is_special: true,
        special_name: Some("Api::OneMe::Packets::Ping"@),
        base_kind: Some("Api::OneMe::Packets::BaseEvent"@),
        special_request_fields: ping_fields_spec(),
    }
}

fn ping_descriptor_exec() -> (r: PacketDescriptor)
    ensures
        r@ == ping_descriptor(),
{
    PacketDescriptor {
        opcode: 1,
        request_full_name: owned("Api::OneMe::Packets::Ping::Payload"),
        request_kind: owned("Payload"),
        response_full_name: owned(""),
        response_kind: owned(""),
        is_special: true,
        special_name: Some(owned("Api::OneMe::Packets::Ping")),
        base_kind: Some(owned("Api::OneMe::Packets::BaseEvent")),
        special_request_fields: ping_payload_fields(),
    }
}

/// The special packets RTTI reveals: one ping descriptor for each type
/// descriptor of a ping creator.
pub fn scan_special_packets_from_rtti(rtti: &RttiEngine) -> (r: Vec<PacketDescriptor>)
    requires
        rtti.wf(),
    ensures
        r.len() == ping_creator_count(rtti.type_descriptors.vals()),
        forall|i: int| 0 <= i < r.len() ==> (#[trigger] r[i])@ == ping_descriptor(),
{
    let tds = &rtti.type_descriptors;
    let n = tds.len();
    let mut out: Vec<PacketDescriptor> = Vec::new();
    let mut i: usize = 0;
    assert(tds.vals().take(0) =~= Seq::<TypeDescriptor>::empty());
    while i < n
        invariant
            i <= n,
            n == tds.vals().len(),
            tds == &rtti.type_descriptors,
            tds.wf(),
            out.len() == ping_creator_count(tds.vals().take(i as int)),
            forall|k: int| 0 <= k < out.len() ==> (#[trigger] out[k])@ == ping_descriptor(),
        decreases n - i,
    {
        assert(tds.vals().take(i + 1).drop_last() =~= tds.vals().take(i as int));
        assert(tds.vals().take(i + 1).last() == tds.vals()[i as int]);
        let n = chars_of(tds.value_at(i).demangled_name.as_str());
        if contains_str(&n, "Creator<") && contains_str(&n, "Api::OneMe::Packets::") && (contains_str(
            &n,
            "BaseEvent",
        ) || contains_str(&n, "BasePacket")) && contains_str(&n, "Ping") {
            out.push(ping_descriptor_exec());
        }
        i = i + 1;
    }
    assert(tds.vals().take(n as int) =~= tds.vals());
    out
}

/// The special packets of the image (see [`scan_special_packets_from_rtti`]).
pub fn scan_special_packets(pe: &PeImage, rtti: &RttiEngine) -> (r: Vec<PacketDescriptor>)
    requires
        rtti.wf(),
    ensures
        r.len() == ping_creator_count(rtti.type_descriptors.vals()),
        forall|i: int| 0 <= i < r.len() ==> (#[trigger] r[i])@ == ping_descriptor(),
{
    scan_special_packets_from_rtti(rtti)
}

// ---------------------------------------------------------------------------
// String enumerations
// ---------------------------------------------------------------------------

/// An upper-case enumeration byte: `A`-`Z`, `0`-`9` or `_`.
pub open spec fn is_enum_byte(b: u8) -> bool {
    (65 <= b && b <= 90) || (48 <= b && b <= 57) || b == 95
}

/// Whether `b` may belong to an upper-case enumeration value.
pub fn is_upper_enum_byte(b: u8) -> (r: bool)
    ensures
        r == is_enum_byte(b),
{
    (65 <= b && b <= 90) || (48 <= b && b <= 57) || b == 95
}

/// The number of bytes the UTF-8 encoding of `c` takes.
pub open spec fn utf8_width(c: char) -> nat {
    if (c as u32) < 0x80 {
        1
    } else if (c as u32) < 0x800 {
        2
    } else if (c as u32) < 0x10000 {
        3
    } else {
        4
    }
}

/// The number of bytes of the UTF-8 encoding of `s` (`str::len`).
pub open spec fn utf8_len(s: Seq<char>) -> nat
    decreases s.len(),
{
    if s.len() == 0 {
        0
    } else {
        utf8_len(s.drop_last()) + utf8_width(s.last())
    }
}

/// The number of ASCII digits in `s`.
pub open spec fn digit_count(s: Seq<char>) -> nat
    decreases s.len(),
{
    if s.len() == 0 {
        0
    } else {
        digit_count(s.drop_last()) + if is_digit(s.last()) {
            1nat
        } else {
            0nat
        }
    }
}

/// Every character of `s` is an ASCII digit or `_` (so its `_`-separated
/// non-empty parts are all numbers).
pub open spec fn digits_and_underscores(s: Seq<char>) -> bool {
    forall|i: int| 0 <= i < s.len() ==> is_digit(#[trigger] s[i]) || s[i] == '_'
}

/// `s` reads like an enumeration value rather than a symbol or a number: it
/// does not start with a digit, does not end in `XZ`, is not made of
/// numbers only, and a short value without `_` is less than two-fifths
/// digits.
pub open spec fn likely_enum(s: Seq<char>) -> bool {
    &&& !is_digit(s[0])
    &&& !has_suffix(s, "XZ"@)
    &&& !all_digits(s)
    &&& !digits_and_underscores(s)
    &&& !(!s.contains('_') && utf8_len(s) <= 6 && 5 * digit_count(s) >= 2 * utf8_len(s))
}

fn width_of(c: char) -> (r: u64)
    ensures
        r == utf8_width(c),
{
    let v = c as u32;
    if v < 0x80 {
        1
    } else if v < 0x800 {
        2
    } else if v < 0x10000 {
        3
    } else {
        4
    }
}

/// Whether `s` reads like an enumeration value (see [`likely_enum`]).
pub fn is_likely_enum(s: &str) -> (r: bool)
    requires
        s@.len() > 0,
    ensures
        r == likely_enum(s@),
{
    let cs = chars_of(s);
    if '0' <= cs[0] && cs[0] <= '9' {
        return false;
    }
    if ends_with_str(&cs, "XZ") {
        return false;
    }
    let mut all_dig = true;
    let mut dig_or_us = true;
    let mut has_us = false;
    let mut digits: u64 = 0;
    let mut width: u64 = 0;
    let mut i: usize = 0;
    while i < cs.len()
        invariant
            i <= cs.len(),
            cs@ == s@,
            all_dig == all_digits(s@.take(i as int)),
            dig_or_us == digits_and_underscores(s@.take(i as int)),
            has_us == s@.take(i as int).contains('_'),
            digits == digit_count(s@.take(i as int)),
            digit_count(s@.take(i as int)) <= utf8_len(s@.take(i as int)),
            width <= 6 ==> width == utf8_len(s@.take(i as int)),
            width > 6 ==> utf8_len(s@.take(i as int)) > 6,
            width <= 10,
            digits <= i,
        decreases cs.len() - i,
    {
        let c = cs[i];
        let ghost t0 = s@.take(i as int);
        let ghost t1 = s@.take(i + 1);
        assert(t1.drop_last() =~= t0);
        assert(t1.last() == c);
        assert(all_digits(t1) == (all_digits(t0) && is_digit(c))) by {
            if all_digits(t0) && is_digit(c) {
                assert forall|k: int| 0 <= k < t1.len() implies is_digit(#[trigger] t1[k]) by {
                    if k < i {
                        assert(t1[k] == t0[k]);
                    }
                }
            }
            if all_digits(t1) {
                assert(is_digit(t1[i as int]));
                assert forall|k: int| 0 <= k < t0.len() implies is_digit(#[trigger] t0[k]) by {
                    assert(t1[k] == t0[k]);
                }
            }
        }
        assert(digits_and_underscores(t1) == (digits_and_underscores(t0) && (is_digit(c) || c == '_'))) by {
            if digits_and_underscores(t0) && (is_digit(c) || c == '_') {
                assert forall|k: int| 0 <= k < t1.len() implies is_digit(#[trigger] t1[k]) || t1[k] == '_' by {
                    if k < i {
                        assert(t1[k] == t0[k]);
                    }
                }
            }
            if digits_and_underscores(t1) {
                assert(is_digit(t1[i as int]) || t1[i as int] == '_');
                assert forall|k: int| 0 <= k < t0.len() implies is_digit(#[trigger] t0[k]) || t0[k] == '_' by {
                    assert(t1[k] == t0[k]);
                }
            }
        }
        assert(t1.contains('_') == (t0.contains('_') || c == '_')) by {
            if t1.contains('_') {
                let k = choose|k: int| 0 <= k < t1.len() && t1[k] == '_';
                if k < i {
                    assert(t0[k] == '_');
                }
            }
            if t0.contains('_') {
                let k = choose|k: int| 0 <= k < t0.len() && t0[k] == '_';
                assert(t1[k] == '_');
            }
            if c == '_' {
                assert(t1[i as int] == '_');
            }
        }
        let is_d = '0' <= c && c <= '9';
        all_dig = all_dig && is_d;
        dig_or_us = dig_or_us && (is_d || c == '_');
        has_us = has_us || c == '_';
        if is_d {
            digits = digits + 1;
        }
        if width <= 6 {
            width = width + width_of(c);
        }
        i = i + 1;
    }
    assert(s@.take(cs.len() as int) =~= s@);
    if all_dig {
        return false;
    }
    if dig_or_us {
        return false;
    }
    if !has_us && width <= 6 && 5 * digits >= 2 * width {
        return false;
    }
    true
}

/// The end of the run of enumeration bytes starting at `i`.
pub open spec fn run_end(d: Seq<u8>, i: int) -> int
    decreases d.len() - i,
{
    if i < 0 || i >= d.len() || !is_enum_byte(d[i]) {
        i
    } else {
        run_end(d, i + 1)
    }
}

pub proof fn lemma_run_end(d: Seq<u8>, i: int)
    requires
        0 <= i <= d.len(),
    ensures
        i <= run_end(d, i) <= d.len(),
        forall|k: int| i <= k < run_end(d, i) ==> is_enum_byte(#[trigger] d[k]),
        run_end(d, i) < d.len() ==> !is_enum_byte(d[run_end(d, i)]),
    decreases d.len() - i,
{
    if i < d.len() && is_enum_byte(d[i]) {
        lemma_run_end(d, i + 1);
    }
}

/// ASCII bytes as text.
pub open spec fn ascii_text(b: Seq<u8>) -> Seq<char> {
    b.map_values(|x: u8| x as char)
}

/// The enumeration values found scanning `d` from `i`: each maximal run of
/// enumeration bytes longer than three and at most sixty-four bytes that is
/// followed by a zero byte and reads like an enumeration value.
pub open spec fn enum_tokens(d: Seq<u8>, i: int) -> Seq<Seq<char>>
    decreases d.len() - i,
{
    if i < 0 || i >= d.len() {
        seq![]
    } else if !is_enum_byte(d[i]) {
        enum_tokens(d, i + 1)
    } else {
        let e = run_end(d, i);
        proof {
            lemma_run_end(d, i);
        }
        let t = ascii_text(d.subrange(i, e));
        let rest = enum_tokens(d, e);
        if e - i > 3 && e - i <= 64 && e < d.len() && d[e] == 0 && likely_enum(t) {
            seq![t] + rest
        } else {
            rest
        }
    }
}

fn ascii_chars(data: &[u8], a: usize, b: usize) -> (r: Vec<char>)
    requires
        a <= b <= data@.len(),
    ensures
        r@ == ascii_text(data@.subrange(a as int, b as int)),
{
    let mut v: Vec<char> = Vec::new();
    let mut k: usize = a;
    while k < b
        invariant
            a <= k <= b,
            b <= data@.len(),
            v@ == ascii_text(data@.subrange(a as int, k as int)),
        decreases b - k,
    {
        v.push(data[k] as char);
        k = k + 1;
        assert(v@ =~= ascii_text(data@.subrange(a as int, k as int)));
    }
    v
}

/// The upper-case string enumeration values stored in the image, ascending
/// and without repetition (see [`enum_tokens`]).
pub fn extract_uppercase_enums(data: &[u8]) -> (r: Vec<String>)
    ensures
        strictly_sorted(r.deep_view()),
        r.deep_view().to_set() == enum_tokens(data@, 0).to_set(),
        r.deep_view() == sorted_names(enum_tokens(data@, 0).to_set()),
{
    let ghost d = data@;
    let mut set = NameSet::new();
    let n = data.len();
    let mut i: usize = 0;
    let ghost mut acc: Seq<Seq<char>> = seq![];
    assert(set@.to_set() =~= acc.to_set());
    assert(enum_tokens(d, 0) =~= acc + enum_tokens(d, 0));
    while i < n
        invariant
            n == data@.len(),
            d == data@,
            i <= n,
            set.wf(),
            set@.to_set() == acc.to_set(),
            enum_tokens(d, 0) == acc + enum_tokens(d, i as int),
        decreases n - i,
    {
        if !is_upper_enum_byte(data[i]) {
            i = i + 1;
            continue;
        }
        let mut end = i;
        proof {
            lemma_run_end(d, i as int);
        }
        while end < n && is_upper_enum_byte(data[end])
            invariant
                i <= end <= n,
                n == data@.len(),
                d == data@,
                run_end(d, i as int) == run_end(d, end as int),
            decreases n - end,
        {
            end = end + 1;
        }
        assert(end == run_end(d, i as int));
        let length = end - i;
        let ghost t = ascii_text(d.subrange(i as int, end as int));
        let ghost rest = enum_tokens(d, end as int);
        if length > 3 && length <= 64 && end < n && data[end] == 0 {
            let chars = ascii_chars(data, i, end);
            let text = string_of(&chars);
            if is_likely_enum(text.as_str()) {
                let ghost before = set@.to_set();
                let ghost old_acc = acc;
                assert(text@ == t);
                assert(before == old_acc.to_set());
                set.insert(text);
                proof {
                    assert(enum_tokens(d, i as int) == seq![t] + rest);
                    assert(acc + (seq![t] + rest) =~= acc.push(t) + rest);
                    acc = acc.push(t);
                    assert(set@.to_set() =~= acc.to_set()) by {
                        assert forall|x: Seq<char>| acc.to_set().contains(x) <==> before.insert(t).contains(x) by {
                            let a0 = old_acc;
                            assert(acc.drop_last() =~= a0);
                            assert(before.contains(x) == a0.contains(x));
                            if acc.contains(x) {
                                let k = choose|k: int| 0 <= k < acc.len() && acc[k] == x;
                                if k < acc.len() - 1 {
                                    assert(a0[k] == x);
                                }
                            }
                            if a0.contains(x) {
                                let k = choose|k: int| 0 <= k < a0.len() && a0[k] == x;
                                assert(acc[k] == x);
                            }
                            if x == t {
                                assert(acc[acc.len() - 1] == t);
                            }
                        }
                    }
                }
            } else {
                assert(enum_tokens(d, i as int) == rest);
            }
        } else {
            assert(enum_tokens(d, i as int) == rest);
        }
        i = end;
    }
    assert(enum_tokens(d, i as int) =~= Seq::<Seq<char>>::empty());
    assert(acc + Seq::<Seq<char>>::empty() =~= acc);
    let r = set.to_vec();
    proof {
        lemma_sorted_names(r.deep_view());
    }
    r
}

// ---------------------------------------------------------------------------
// The scan
// ---------------------------------------------------------------------------

/// The events with the special packets added: each special packet whose
/// opcode is not yet taken, in its place by opcode.
pub open spec fn add_specials(events: Seq<DescShape>, specials: Seq<DescShape>) -> Seq<DescShape>
    decreases specials.len(),
{
    if specials.len() == 0 {
        events
    } else {
        add_desc(add_specials(events, specials.drop_last()), specials.last())
    }
}

impl ProtocolScanner {
    /// Scans the image: the packets and events of its `.rdata` templates
    /// (an error in either is the scan's error), the special packets RTTI
    /// reveals added to the events, and the string enumeration values of
    /// the whole file.
    pub fn scan(pe: &PeImage, rtti: &RttiEngine) -> (r: Result<ProtocolScanner, ScanError>)
        requires
            rtti.wf(),
        ensures
            ({
                let rdata = pe.section_spec_data(".rdata"@);
                let specials = Seq::new(ping_creator_count(rtti.type_descriptors.vals()), |i: int| ping_descriptor());
                match (scan_with(rdata, PACKET_PATTERN@), scan_with(rdata, EVENT_PATTERN@)) {
                    (Err(e), _) => r == Err::<ProtocolScanner, ScanError>(e),
                    (Ok(_), Err(e)) => r == Err::<ProtocolScanner, ScanError>(e),
                    (Ok(p), Ok(v)) => r matches Ok(sc) && descs_view(sc.packets@) == p && descs_view(sc.events@)
                        == add_specials(v, specials) && sc.string_enums.deep_view() == sorted_names(
                        enum_tokens(pe.raw@, 0).to_set(),
                    ),
                }
            }),
    {
        let packets = match scan_common_packets(pe) {
            Ok(p) => p,
            Err(e) => {
                return Err(e);
            },
        };
        let mut events = match scan_common_events(pe) {
            Ok(v) => v,
            Err(e) => {
                return Err(e);
            },
        };
        let ghost v0 = descs_view(events@);
        proof {
            lemma_scan_sorted(pe.section_spec_data(".rdata"@), EVENT_PATTERN@);
        }
        let specials = scan_special_packets(pe, rtti);
        let ghost sp = Seq::new(ping_creator_count(rtti.type_descriptors.vals()), |i: int| ping_descriptor());
        let mut i: usize = 0;
        assert(sp.take(0) =~= Seq::<DescShape>::empty());
        while i < specials.len()
            invariant
                i <= specials.len(),
                specials.len() == sp.len(),
                forall|k: int| 0 <= k < specials.len() ==> (#[trigger] specials[k])@ == ping_descriptor(),
                sp == Seq::new(ping_creator_count(rtti.type_descriptors.vals()), |i: int| ping_descriptor()),
                opcodes_ascending(descs_view(events@)),
                descs_view(events@) == add_specials(v0, sp.take(i as int)),
            decreases specials.len() - i,
        {
            assert(sp.take(i + 1).drop_last() =~= sp.take(i as int));
            assert(sp.take(i + 1).last() == specials[i as int]@);
            let d = ping_descriptor_exec();
            add_descriptor(&mut events, d);
            i = i + 1;
        }
        assert(sp.take(sp.len() as int) =~= sp);
        let string_enums = extract_uppercase_enums(pe.raw);
        Ok(ProtocolScanner { packets, events, string_enums })
    }
}

proof fn lemma_scan_captures_sorted(caps: Seq<Seq<Option<Seq<u8>>>>)
    ensures
        scan_captures(caps) matches Ok(l) ==> opcodes_ascending(l),
    decreases caps.len(),
{
    if caps.len() > 0 {
        lemma_scan_captures_sorted(caps.drop_last());
        if let Ok(list) = scan_captures(caps.drop_last()) {
            let c = caps.last();
            if let Some(t1) = group_text(c, 1) {
                if let Some(op) = parse_u32_spec(t1) {
                    if !has_opcode(list, op) {
                        if let (Some(a), Some(b)) = (group_text(c, 2), group_text(c, 3)) {
                            let dsc = common_descriptor(op, a, b);
                            lemma_insert_desc_sorted(list, dsc);
                        }
                    }
                }
            }
        }
    }
}

proof fn lemma_insert_desc_sorted(list: Seq<DescShape>, d: DescShape)
    requires
        opcodes_ascending(list),
        !has_opcode(list, d.opcode),
    ensures
        opcodes_ascending(insert_desc(list, d)),
{
    let k = choose_split(list, d.opcode);
    lemma_insert_desc(list, d, k);
}

spec fn count_below(list: Seq<DescShape>, op: u32) -> int
    decreases list.len(),
{
    if list.len() == 0 || list[0].opcode > op {
        0
    } else {
        1 + count_below(list.drop_first(), op)
    }
}

proof fn lemma_count_below(list: Seq<DescShape>, op: u32)
    requires
        opcodes_ascending(list),
        !has_opcode(list, op),
    ensures
        0 <= count_below(list, op) <= list.len(),
        forall|i: int| 0 <= i < count_below(list, op) ==> (#[trigger] list[i]).opcode < op,
        forall|i: int| count_below(list, op) <= i < list.len() ==> op < (#[trigger] list[i]).opcode,
    decreases list.len(),
{
    if list.len() > 0 {
        let t = list.drop_first();
        assert(opcodes_ascending(t)) by {
            assert forall|i: int, j: int| 0 <= i < j < t.len() implies (#[trigger] t[i]).opcode < (
            #[trigger] t[j]).opcode by {
                assert(t[i] == list[i + 1] && t[j] == list[j + 1]);
            }
        }
        assert(!has_opcode(t, op)) by {
            if has_opcode(t, op) {
                let i = choose|i: int| 0 <= i < t.len() && (#[trigger] t[i]).opcode == op;
                assert(list[i + 1].opcode == op);
            }
        }
        assert(list[0].opcode != op) by {
            if list[0].opcode == op {
                assert(has_opcode(list, op));
            }
        }
        if list[0].opcode < op {
            lemma_count_below(t, op);
            assert forall|i: int| 0 <= i < count_below(list, op) implies (#[trigger] list[i]).opcode < op by {
                if i > 0 {
                    assert(list[i] == t[i - 1]);
                }
            }
            assert forall|i: int| count_below(list, op) <= i < list.len() implies op < (#[trigger] list[i]).opcode by {
                assert(list[i] == t[i - 1]);
            }
        } else {
            assert forall|i: int| 0 <= i < list.len() implies op < (#[trigger] list[i]).opcode by {
                if i > 0 {
                    assert(list[0].opcode < list[i].opcode);
                }
            }
        }
    }
}

proof fn choose_split(list: Seq<DescShape>, op: u32) -> (k: int)
    requires
        opcodes_ascending(list),
        !has_opcode(list, op),
    ensures
        0 <= k <= list.len(),
        forall|i: int| 0 <= i < k ==> (#[trigger] list[i]).opcode < op,
        forall|i: int| k <= i < list.len() ==> op < (#[trigger] list[i]).opcode,
{
    lemma_count_below(list, op);
    count_below(list, op)
}

proof fn lemma_add_specials_sorted(events: Seq<DescShape>, specials: Seq<DescShape>)
    requires
        opcodes_ascending(events),
    ensures
        opcodes_ascending(add_specials(events, specials)),
    decreases specials.len(),
{
    if specials.len() > 0 {
        lemma_add_specials_sorted(events, specials.drop_last());
        let prev = add_specials(events, specials.drop_last());
        if !has_opcode(prev, specials.last().opcode) {
            lemma_insert_desc_sorted(prev, specials.last());
        }
    }
}

/// Whatever the image holds, the packets and the events a scan lists come in
/// strictly ascending order of opcode, so that no opcode appears twice; and
/// adding the special packets to the events keeps it so.
pub proof fn lemma_scan_opcodes_unique(rdata: Option<Seq<u8>>, pattern: Seq<char>, specials: Seq<DescShape>)
    ensures
        scan_with(rdata, pattern) matches Ok(l) ==> opcodes_ascending(l) && opcodes_ascending(
            add_specials(l, specials),
        ),
{
    lemma_scan_sorted(rdata, pattern);
    if let Ok(l) = scan_with(rdata, pattern) {
        lemma_add_specials_sorted(l, specials);
    }
}

proof fn lemma_scan_sorted(rdata: Option<Seq<u8>>, pattern: Seq<char>)
    ensures
        scan_with(rdata, pattern) matches Ok(l) ==> opcodes_ascending(l),
{
    if let Some(b) = rdata {
        if let Some(c) = regex_byte_captures(pattern, b) {
            lemma_scan_captures_sorted(c);
        }
    }
}

} // verus!
