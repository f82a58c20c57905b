//! The PE image: its sections, the `.pdata` function table, and reads by
//! relative virtual address.
use vstd::prelude::*;
use crate::text::{str_eq};

verus! {

/// A section header.
#[derive(Debug, Clone, PartialEq, Eq)]
pub struct SectionInfo {
    pub name: String,
    pub virtual_address: u32,
    pub virtual_size: u32,
    pub pointer_to_raw_data: u32,
    pub size_of_raw_data: u32,
}

/// The abstract value of a [`SectionInfo`].
pub struct SectionShape {
    pub name: Seq<char>,
    pub virtual_address: u32,
    pub virtual_size: u32,
    pub pointer_to_raw_data: u32,
    pub size_of_raw_data: u32,
}

impl View for SectionInfo {
    type V = SectionShape;

    open spec fn view(&self) -> SectionShape {
        SectionShape {
            name: self.name@,
            virtual_address: self.virtual_address,
            virtual_size: self.virtual_size,
            pointer_to_raw_data: self.pointer_to_raw_data,
            size_of_raw_data: self.size_of_raw_data,
        }
    }
}

/// The views of a list of sections.
pub open spec fn sections_view(s: Seq<SectionInfo>) -> Seq<SectionShape> {
    s.map_values(|x: SectionInfo| x@)
}

/// An entry of the `.pdata` table: where a function begins and ends.
#[derive(Debug, Clone, Copy, PartialEq, Eq, Structural)]
pub struct RuntimeFunction {
    pub begin_address: u32,
    pub end_address: u32,
    pub unwind_info_address: u32,
}

impl RuntimeFunction {
    /// The length of the function (zero when its end precedes its beginning).
    pub fn len(&self) -> (r: u32)
        ensures
            r == (if self.end_address >= self.begin_address {
                (self.end_address - self.begin_address) as u32
            } else {
                0
            }),
    {
        if self.end_address >= self.begin_address {
            self.end_address - self.begin_address
        } else {
            0
        }
    }
}

/// Why a PE image could not be read.
#[derive(Debug, Clone, PartialEq, Eq)]
pub enum PeError {
    /// The PE parser refused the bytes, with its message.
    Malformed(String),
    /// The image has no optional header.
    MissingOptionalHeader,
}

/// The image base and section headers of a PE image, as the `goblin` PE
/// parser reads them, or its error message.
pub uninterp spec fn pe_layout(bytes: Seq<u8>) -> Result<(Option<u64>, Seq<SectionShape>), Seq<char>>;

/// `goblin::pe::PE::parse`: the image base from the optional header, when
/// there is one, and each section header, a section whose name does not
/// decode being named by the empty string; or the parser's error message.
/// The contract names the outcome and does not state how the headers are
/// parsed, and it speaks only of what the parser returns: whether it
/// returns on every input is not stated.
#[verifier::external_body]
fn parse_pe_layout(bytes: &[u8]) -> (r: Result<(Option<u64>, Vec<SectionInfo>), String>)
    ensures
        match r {
            Ok((base, secs)) => pe_layout(bytes@) == Ok::<(Option<u64>, Seq<SectionShape>), Seq<char>>(
                (base, sections_view(secs@)),
            ),
            Err(e) => pe_layout(bytes@) == Err::<(Option<u64>, Seq<SectionShape>), Seq<char>>(e@),
        },
{
    match goblin::pe::PE::parse(bytes) {
        Ok(pe) => Ok((
            pe.header.optional_header.map(|h| h.windows_fields.image_base),
            pe.sections.iter().map(|s| SectionInfo {
                name: s.name().unwrap_or_default().to_string(),
                virtual_address: s.virtual_address,
                virtual_size: s.virtual_size,
                pointer_to_raw_data: s.pointer_to_raw_data,
                size_of_raw_data: s.size_of_raw_data,
            }).collect(),
        )),
        Err(e) => Err(e.to_string()),
    }
}

/// The index of the first zero byte of `bytes` (`memchr::memchr(0, ..)`).
#[verifier::external_body]
fn first_nul(bytes: &[u8]) -> (r: Option<usize>)
    ensures
        r matches Some(i) ==> i < bytes@.len() && bytes@[i as int] == 0 && forall|j: int|
            0 <= j < i ==> bytes@[j] != 0,
        r is None ==> forall|j: int| 0 <= j < bytes@.len() ==> bytes@[j] != 0,
{
    memchr::memchr(0, bytes)
}

/// `std::str::from_utf8`: the text the bytes encode, when they are valid
/// UTF-8.
#[verifier::external_body]
pub(crate) fn utf8_str(bytes: &[u8]) -> (r: Option<&str>)
    ensures
        r is Some <==> vstd::utf8::valid_utf8(bytes@),
        r matches Some(s) ==> s@ == vstd::utf8::decode_utf8(bytes@),
{
    std::str::from_utf8(bytes).ok()
}

/// The little-endian 32-bit value at `at` in `s`.
pub open spec fn le_u32(s: Seq<u8>, at: int) -> u32 {
    (s[at] as int + s[at + 1] as int * 256 + s[at + 2] as int * 65536 + s[at + 3] as int * 16777216) as u32
}

/// The little-endian 64-bit value at `at` in `s`.
pub open spec fn le_u64(s: Seq<u8>, at: int) -> u64 {
    (le_u32(s, at) as int + le_u32(s, at + 4) as int * 4294967296) as u64
}

/// Reads the little-endian 32-bit value at `at` (`u32::from_le_bytes`).
pub fn read_u32_le(s: &[u8], at: usize) -> (r: u32)
    requires
        at + 4 <= s@.len(),
    ensures
        r == le_u32(s@, at as int),
{
    let b0 = s[at] as u32;
    let b1 = s[at + 1] as u32;
    let b2 = s[at + 2] as u32;
    let b3 = s[at + 3] as u32;
    b0 + b1 * 256 + b2 * 65536 + b3 * 16777216
}

/// Reads the little-endian 64-bit value at `at` (`u64::from_le_bytes`).
pub fn read_u64_le(s: &[u8], at: usize) -> (r: u64)
    requires
        at + 8 <= s@.len(),
    ensures
        r == le_u64(s@, at as int),
{
    let n = s.len();
    assert(n == s@.len());
    let lo = read_u32_le(s, at) as u64;
    let hi = read_u32_le(s, at + 4) as u64;
    lo + hi * 4294967296
}

/// The `.pdata` entries in `b` from entry `k` on: each 12-byte entry whose
/// begin or end address is not zero.
pub open spec fn pdata_entries(b: Seq<u8>, k: int) -> Seq<RuntimeFunction>
    decreases b.len() - 12 * k,
{
    if k < 0 || 12 * k + 12 > b.len() {
        seq![]
    } else {
        let f = RuntimeFunction {
            begin_address: le_u32(b, 12 * k),
            end_address: le_u32(b, 12 * k + 4),
            unwind_info_address: le_u32(b, 12 * k + 8),
        };
        if f.begin_address != 0 || f.end_address != 0 {
            seq![f] + pdata_entries(b, k + 1)
        } else {
            pdata_entries(b, k + 1)
        }
    }
}

/// The first section named `name`.
pub open spec fn first_section_named(secs: Seq<SectionShape>, name: Seq<char>) -> Option<SectionShape>
    decreases secs.len(),
{
    if secs.len() == 0 {
        None
    } else if secs[0].name == name {
        Some(secs[0])
    } else {
        first_section_named(secs.drop_first(), name)
    }
}

/// The raw bytes of a section when they lie within the file.
pub open spec fn section_bytes(raw: Seq<u8>, s: SectionShape) -> Option<Seq<u8>> {
    let start = s.pointer_to_raw_data as int;
    let end = start + s.size_of_raw_data as int;
    if end <= raw.len() {
        Some(raw.subrange(start, end))
    } else {
        None
    }
}

/// The function table read from the `.pdata` section, empty when there is
/// none or it lies outside the file.
pub open spec fn pdata_of(raw: Seq<u8>, secs: Seq<SectionShape>) -> Seq<RuntimeFunction> {
    match first_section_named(secs, ".pdata"@) {
        Some(s) => match section_bytes(raw, s) {
            Some(b) => pdata_entries(b, 0),
            None => seq![],
        },
        None => seq![],
    }
}

/// The `len` bytes at `rva`, when they lie within the file.
pub open spec fn bytes_at(raw: Seq<u8>, secs: Seq<SectionShape>, rva: u32, len: int) -> Option<Seq<u8>> {
    match rva_offset(secs, rva) {
        Some(o) => if o + len <= raw.len() {
            Some(raw.subrange(o, o + len))
        } else {
            None
        },
        None => None,
    }
}

/// The address of the code at `rva` in an image loaded at `base`
/// (wrapping at 64 bits).
pub open spec fn code_ip(base: u64, rva: u32) -> u64 {
    ((base as int + rva as int) % 0x1_0000_0000_0000_0000int) as u64
}

/// The address of the code at `rva` in an image loaded at `base` (see
/// [`code_ip`]).
pub fn code_address(base: u64, rva: u32) -> (r: u64)
    ensures
        r == code_ip(base, rva),
{
    let r64 = rva as u64;
    if base <= u64::MAX - r64 {
        base + r64
    } else {
        r64 - (u64::MAX - base) - 1
    }
}

/// The index of the first zero byte of `s` at or after `i`.
pub open spec fn first_zero(s: Seq<u8>, i: int) -> Option<int>
    decreases s.len() - i,
{
    if i < 0 || i >= s.len() {
        None
    } else if s[i] == 0 {
        Some(i)
    } else {
        first_zero(s, i + 1)
    }
}

proof fn lemma_first_zero_none(s: Seq<u8>, i: int)
    requires
        0 <= i,
        forall|j: int| i <= j < s.len() ==> s[j] != 0,
    ensures
        first_zero(s, i) is None,
    decreases s.len() - i,
{
    if i < s.len() {
        lemma_first_zero_none(s, i + 1);
    }
}

proof fn lemma_first_zero_some(s: Seq<u8>, i: int, n: int)
    requires
        0 <= i <= n < s.len(),
        s[n] == 0,
        forall|j: int| i <= j < n ==> s[j] != 0,
    ensures
        first_zero(s, i) == Some(n),
    decreases n - i,
{
    if i < n {
        lemma_first_zero_some(s, i + 1, n);
    }
}

/// The zero-terminated UTF-8 text at `rva`: the bytes from the RVA's file
/// offset up to the first zero byte, when there is one and they decode
/// (nothing when the offset lies beyond the file).
pub open spec fn cstring_at(raw: Seq<u8>, secs: Seq<SectionShape>, rva: u32) -> Option<Seq<char>> {
    match rva_offset(secs, rva) {
        Some(o) => if o <= raw.len() {
            let rest = raw.subrange(o, raw.len() as int);
            match first_zero(rest, 0) {
                Some(n) => if vstd::utf8::valid_utf8(rest.subrange(0, n)) {
                    Some(vstd::utf8::decode_utf8(rest.subrange(0, n)))
                } else {
                    None
                },
                None => None,
            }
        } else {
            None
        },
        None => None,
    }
}

/// A parsed PE image.
pub struct PeImage<'a> {
    pub raw: &'a [u8],
    pub image_base: u64,
    pub sections: Vec<SectionInfo>,
    pub pdata: Vec<RuntimeFunction>,
}

/// The file offset an RVA maps to in a section: the RVA must fall within the
/// larger of the section's virtual and raw sizes, and within its raw data.
pub open spec fn offset_in(s: SectionShape, rva: u32) -> Option<int> {
    let size = if s.virtual_size >= s.size_of_raw_data { s.virtual_size } else { s.size_of_raw_data };
    if rva >= s.virtual_address && rva < s.virtual_address + size && rva - s.virtual_address
        < s.size_of_raw_data {
        Some(s.pointer_to_raw_data + (rva - s.virtual_address))
    } else {
        None
    }
}

/// The file offset of an RVA, by the first section that maps it.
pub open spec fn rva_offset(secs: Seq<SectionShape>, rva: u32) -> Option<int>
    decreases secs.len(),
{
    if secs.len() == 0 {
        None
    } else if offset_in(secs[0], rva) is Some {
        offset_in(secs[0], rva)
    } else {
        rva_offset(secs.drop_first(), rva)
    }
}

/// An RVA maps to a non-negative file offset.
pub proof fn lemma_rva_offset_nonneg(secs: Seq<SectionShape>, rva: u32)
    ensures
        rva_offset(secs, rva) matches Some(o) ==> o >= 0,
    decreases secs.len(),
{
    if secs.len() > 0 && offset_in(secs[0], rva) is None {
        lemma_rva_offset_nonneg(secs.drop_first(), rva);
    }
}

/// The bytes read at an RVA are as many as asked for.
pub proof fn lemma_bytes_at_len(raw: Seq<u8>, secs: Seq<SectionShape>, rva: u32, len: int)
    requires
        len >= 0,
    ensures
        bytes_at(raw, secs, rva, len) matches Some(b) ==> b.len() == len,
{
    lemma_rva_offset_nonneg(secs, rva);
}

/// The RVA of a file offset (taken modulo 2^32), by the first section whose
/// raw data holds it.
pub open spec fn offset_rva(secs: Seq<SectionShape>, off32: u32) -> Option<int>
    decreases secs.len(),
{
    if secs.len() == 0 {
        None
    } else if off32 >= secs[0].pointer_to_raw_data && off32 < secs[0].pointer_to_raw_data
        + secs[0].size_of_raw_data {
        Some(secs[0].virtual_address + (off32 - secs[0].pointer_to_raw_data))
    } else {
        offset_rva(secs.drop_first(), off32)
    }
}

/// The raw data of `s` holds the file offset `o`.
pub open spec fn raw_holds(s: SectionShape, o: int) -> bool {
    s.pointer_to_raw_data <= o < s.pointer_to_raw_data + s.size_of_raw_data
}

/// No two sections share raw data.
pub open spec fn raw_disjoint(secs: Seq<SectionShape>) -> bool {
    forall|a: int, b: int| 0 <= a < b < secs.len() ==> (#[trigger] secs[a]).pointer_to_raw_data
        + secs[a].size_of_raw_data <= (#[trigger] secs[b]).pointer_to_raw_data || secs[b].pointer_to_raw_data
        + secs[b].size_of_raw_data <= secs[a].pointer_to_raw_data
}

proof fn lemma_rva_offset_in_raw(secs: Seq<SectionShape>, rva: u32)
    ensures
        rva_offset(secs, rva) matches Some(o) ==> exists|k: int| 0 <= k < secs.len() && raw_holds(#[trigger] secs[k], o),
    decreases secs.len(),
{
    if secs.len() > 0 {
        if offset_in(secs[0], rva) is Some {
            assert(raw_holds(secs[0], rva_offset(secs, rva)->0));
        } else {
            lemma_rva_offset_in_raw(secs.drop_first(), rva);
            if rva_offset(secs, rva) is Some {
                let o = rva_offset(secs, rva)->0;
                let k = choose|k: int| 0 <= k < secs.drop_first().len() && raw_holds(#[trigger] secs.drop_first()[k], o);
                assert(secs[k + 1] == secs.drop_first()[k]);
            }
        }
    }
}

/// Where no two sections share raw data, mapping an RVA to its file offset
/// and that offset back gives the RVA again (for offsets of 32 bits).
pub proof fn lemma_offset_round_trip(secs: Seq<SectionShape>, rva: u32)
    requires
        raw_disjoint(secs),
        rva_offset(secs, rva) matches Some(o) && o <= u32::MAX,
    ensures
        offset_rva(secs, rva_offset(secs, rva)->0 as u32) == Some(rva as int),
    decreases secs.len(),
{
    let o = rva_offset(secs, rva)->0;
    lemma_rva_offset_nonneg(secs, rva);
    assert(o as u32 == o);
    if offset_in(secs[0], rva) is None {
        let rest = secs.drop_first();
        assert(raw_disjoint(rest)) by {
            assert forall|a: int, b: int| 0 <= a < b < rest.len() implies (#[trigger] rest[a]).pointer_to_raw_data
                + rest[a].size_of_raw_data <= (#[trigger] rest[b]).pointer_to_raw_data || rest[b].pointer_to_raw_data
                + rest[b].size_of_raw_data <= rest[a].pointer_to_raw_data by {
                assert(rest[a] == secs[a + 1] && rest[b] == secs[b + 1]);
            }
        }
        lemma_offset_round_trip(rest, rva);
        lemma_rva_offset_in_raw(rest, rva);
        let k = choose|k: int| 0 <= k < rest.len() && raw_holds(#[trigger] rest[k], o);
        assert(rest[k] == secs[k + 1]);
        assert(!raw_holds(secs[0], o));
    }
}

proof fn lemma_pdata_step(b: Seq<u8>, k: int)
    requires
        0 <= k,
        12 * k + 12 <= b.len(),
    ensures
        pdata_entries(b, k) == (if le_u32(b, 12 * k) != 0 || le_u32(b, 12 * k + 4) != 0 {
            seq![RuntimeFunction {
                begin_address: le_u32(b, 12 * k),
                end_address: le_u32(b, 12 * k + 4),
                unwind_info_address: le_u32(b, 12 * k + 8),
            }] + pdata_entries(b, k + 1)
        } else {
            pdata_entries(b, k + 1)
        }),
{
}

fn parse_pdata(b: &[u8]) -> (r: Vec<RuntimeFunction>)
    ensures
        r@ == pdata_entries(b@, 0),
{
    let mut out: Vec<RuntimeFunction> = Vec::new();
    let count = b.len() / 12;
    let mut k: usize = 0;
    while k < count
        invariant
            count == b.len() / 12,
            k <= count,
            out@ + pdata_entries(b@, k as int) == pdata_entries(b@, 0),
        decreases count - k,
    {
        let at = 12 * k;
        let begin = read_u32_le(b, at);
        let end_addr = read_u32_le(b, at + 4);
        let unwind = read_u32_le(b, at + 8);
        proof {
            lemma_pdata_step(b@, k as int);
        }
        let ghost prev = out@;
        if begin != 0 || end_addr != 0 {
            out.push(RuntimeFunction { begin_address: begin, end_address: end_addr, unwind_info_address: unwind });
            assert(out@ + pdata_entries(b@, k + 1) =~= prev + pdata_entries(b@, k as int));
        }
        k = k + 1;
    }
    assert(pdata_entries(b@, k as int) =~= Seq::<RuntimeFunction>::empty());
    assert(out@ + Seq::<RuntimeFunction>::empty() =~= out@);
    out
}

impl<'a> PeImage<'a> {
    /// The section headers as abstract values.
    pub open spec fn sections_spec(&self) -> Seq<SectionShape> {
        sections_view(self.sections@)
    }

    /// Reads a PE image: its image base (the optional header must be there),
    /// its section headers, and the function table of its `.pdata` section.
    pub fn parse(bytes: &'a [u8]) -> (r: Result<PeImage<'a>, PeError>)
        ensures
            match pe_layout(bytes@) {
                Err(e) => r matches Err(PeError::Malformed(m)) && m@ == e,
                Ok((None, _)) => r matches Err(PeError::MissingOptionalHeader),
                Ok((Some(base), secs)) => r matches Ok(img) && img.raw@ == bytes@ && img.image_base == base
                    && img.sections_spec() == secs && img.pdata@ == pdata_of(bytes@, secs),
            },
    {
        let (base, sections) = match parse_pe_layout(bytes) {
            Ok(x) => x,
            Err(e) => {
                return Err(PeError::Malformed(e));
            },
        };
        let image_base = match base {
            Some(b) => b,
            None => {
                return Err(PeError::MissingOptionalHeader);
            },
        };
        let img0 = PeImage { raw: bytes, image_base, sections, pdata: Vec::new() };
        let pdata = match img0.section_data(".pdata") {
            Some(b) => parse_pdata(b),
            None => Vec::new(),
        };
        proof {
            assert(img0.section_spec_data(".pdata"@) == match first_section_named(img0.sections_spec(), ".pdata"@) {
                Some(s) => section_bytes(bytes@, s),
                None => None,
            });
        }
        let PeImage { raw, image_base, sections, pdata: _ } = img0;
        let r = PeImage { raw, image_base, sections, pdata };
        assert(r.pdata@ =~= pdata_of(bytes@, r.sections_spec()));
        Ok(r)
    }

    /// The file offset of `rva` (see [`rva_offset`]).
    pub fn rva_to_offset(&self, rva: u32) -> (r: Option<usize>)
        ensures
            r matches Some(x) ==> rva_offset(self.sections_spec(), rva) == Some(x as int),
            r is None ==> (rva_offset(self.sections_spec(), rva) matches Some(o) ==> o > usize::MAX),
    {
        let ghost secs = self.sections_spec();
        let mut i: usize = 0;
        assert(secs.subrange(0, secs.len() as int) =~= secs);
        while i < self.sections.len()
            invariant
                i <= self.sections.len(),
                secs == self.sections_spec(),
                rva_offset(secs, rva) == rva_offset(secs.subrange(i as int, secs.len() as int), rva),
            decreases self.sections.len() - i,
        {
            let s = &self.sections[i];
            let ghost rest = secs.subrange(i as int, secs.len() as int);
            assert(rest[0] == s@);
            assert(rest.drop_first() =~= secs.subrange(i + 1, secs.len() as int));
            let size: u64 = if s.virtual_size >= s.size_of_raw_data {
                s.virtual_size as u64
            } else {
                s.size_of_raw_data as u64
            };
            if rva >= s.virtual_address && (rva as u64) < (s.virtual_address as u64) + size {
                let offset_in_sec = rva - s.virtual_address;
                if offset_in_sec < s.size_of_raw_data {
                    let o: u64 = s.pointer_to_raw_data as u64 + offset_in_sec as u64;
                    if o > usize::MAX as u64 {
                        return None;
                    }
                    return Some(o as usize);
                }
            }
            i = i + 1;
        }
        None
    }

    /// The RVA of a file offset (see [`offset_rva`]; the offset is taken
    /// modulo 2^32, and an RVA beyond 32 bits is not returned).
    pub fn offset_to_rva(&self, offset: usize) -> (r: Option<u32>)
        ensures
            r matches Some(x) ==> offset_rva(self.sections_spec(), offset as u32) == Some(x as int),
            r is None ==> (offset_rva(self.sections_spec(), offset as u32) matches Some(v) ==> v > u32::MAX),
    {
        let ghost secs = self.sections_spec();
        #[verifier::truncate]
        let off32: u32 = offset as u32;
        let mut i: usize = 0;
        assert(secs.subrange(0, secs.len() as int) =~= secs);
        while i < self.sections.len()
            invariant
                i <= self.sections.len(),
                secs == self.sections_spec(),
                off32 == offset as u32,
                offset_rva(secs, off32) == offset_rva(secs.subrange(i as int, secs.len() as int), off32),
            decreases self.sections.len() - i,
        {
            let s = &self.sections[i];
            let ghost rest = secs.subrange(i as int, secs.len() as int);
            assert(rest[0] == s@);
            assert(rest.drop_first() =~= secs.subrange(i + 1, secs.len() as int));
            if off32 >= s.pointer_to_raw_data && (off32 as u64) < (s.pointer_to_raw_data as u64)
                + (s.size_of_raw_data as u64) {
                let v: u64 = s.virtual_address as u64 + (off32 - s.pointer_to_raw_data) as u64;
                if v > u32::MAX as u64 {
                    return None;
                }
                return Some(v as u32);
            }
            i = i + 1;
        }
        None
    }

    /// The `len` bytes at `rva`, when they lie within the file.
    pub fn slice_at_rva(&self, rva: u32, len: usize) -> (r: Option<&'a [u8]>)
        ensures
            match r {
                Some(b) => bytes_at(self.raw@, self.sections_spec(), rva, len as int) == Some(b@),
                None => bytes_at(self.raw@, self.sections_spec(), rva, len as int) is None,
            },
    {
        let n = self.raw.len();
        assert(n == self.raw@.len());
        let offset = match self.rva_to_offset(rva) {
            Some(o) => o,
            None => {
                return None;
            },
        };
        if offset > self.raw.len() || len > self.raw.len() - offset {
            return None;
        }
        Some(vstd::slice::slice_subrange(self.raw, offset, offset + len))
    }

    /// The zero-terminated UTF-8 text at `rva` (see [`cstring_at`]).
    pub fn read_cstring(&self, rva: u32) -> (r: Option<&'a str>)
        ensures
            match r {
                Some(x) => cstring_at(self.raw@, self.sections_spec(), rva) == Some(x@),
                None => cstring_at(self.raw@, self.sections_spec(), rva) is None,
            },
    {
        let n = self.raw.len();
        assert(n == self.raw@.len());
        let offset = match self.rva_to_offset(rva) {
            Some(o) => o,
            None => {
                return None;
            },
        };
        if offset > self.raw.len() {
            return None;
        }
        let rest = vstd::slice::slice_subrange(self.raw, offset, self.raw.len());
        let null_idx = match first_nul(rest) {
            Some(n) => n,
            None => {
                proof {
                    lemma_first_zero_none(rest@, 0);
                }
                return None;
            },
        };
        proof {
            lemma_first_zero_some(rest@, 0, null_idx as int);
        }
        let head = vstd::slice::slice_subrange(rest, 0, null_idx);
        utf8_str(head)
    }

    /// The first section named `name`.
    pub fn section_by_name(&self, name: &str) -> (r: Option<&SectionInfo>)
        ensures
            match first_section_named(self.sections_spec(), name@) {
                Some(s) => r matches Some(x) && x@ == s,
                None => r is None,
            },
    {
        let ghost secs = self.sections_spec();
        let mut i: usize = 0;
        assert(secs.subrange(0, secs.len() as int) =~= secs);
        while i < self.sections.len()
            invariant
                i <= self.sections.len(),
                secs == self.sections_spec(),
                first_section_named(secs, name@) == first_section_named(
                    secs.subrange(i as int, secs.len() as int),
                    name@,
                ),
            decreases self.sections.len() - i,
        {
            let ghost rest = secs.subrange(i as int, secs.len() as int);
            assert(rest[0] == self.sections[i as int]@);
            assert(rest.drop_first() =~= secs.subrange(i + 1, secs.len() as int));
            if str_eq(self.sections[i].name.as_str(), name) {
                return Some(&self.sections[i]);
            }
            i = i + 1;
        }
        None
    }

    /// The raw bytes of the section named `name`, per [`section_bytes`].
    pub open spec fn section_spec_data(&self, name: Seq<char>) -> Option<Seq<u8>> {
        match first_section_named(self.sections_spec(), name) {
            Some(s) => section_bytes(self.raw@, s),
            None => None,
        }
    }

    /// The raw bytes of the first section named `name`, when they lie within
    /// the file.
    pub fn section_data(&self, name: &str) -> (r: Option<&'a [u8]>)
        ensures
            match self.section_spec_data(name@) {
                Some(b) => r matches Some(x) && x@ == b,
                None => r is None,
            },
    {
        let s = match self.section_by_name(name) {
            Some(s) => s,
            None => {
                return None;
            },
        };
        let start = s.pointer_to_raw_data as usize;
        let size = s.size_of_raw_data as usize;
        if start > self.raw.len() || size > self.raw.len() - start {
            return None;
        }
        Some(vstd::slice::slice_subrange(self.raw, start, start + size))
    }

    /// The function table entry whose range holds `rva`, found by binary
    /// search (the table is meant to be sorted by address; see
    /// [`containing_function`]).
    pub fn find_function(&self, rva: u32) -> (r: Option<&RuntimeFunction>)
        ensures
            match r {
                Some(f) => containing_function(self.pdata@, rva) == Some(*f),
                None => containing_function(self.pdata@, rva) is None,
            },
            r matches Some(f) ==> f.begin_address <= rva < f.end_address && self.pdata@.contains(*f),
            r is None && sorted_functions(self.pdata@) ==> forall|i: int| 0 <= i < self.pdata@.len()
                ==> !(#[trigger] self.pdata@[i].begin_address <= rva < self.pdata@[i].end_address),
    {
        let mut lo: usize = 0;
        let mut hi: usize = self.pdata.len();
        let ghost fs = self.pdata@;
        while lo < hi
            invariant
                lo <= hi <= self.pdata.len(),
                fs == self.pdata@,
                search_in(fs, rva, lo as int, hi as int) == containing_function(fs, rva),
                sorted_functions(fs) ==> forall|i: int| (0 <= i < lo || hi <= i < fs.len())
                    ==> !(#[trigger] fs[i].begin_address <= rva < fs[i].end_address),
            decreases hi - lo,
        {
            let mid = lo + (hi - lo) / 2;
            let f = &self.pdata[mid];
            if rva < f.begin_address {
                hi = mid;
            } else if rva >= f.end_address {
                lo = mid + 1;
            } else {
                assert(fs[mid as int] == *f);
                return Some(f);
            }
        }
        None
    }
}

/// The entry a binary search of `fs[lo..hi]` finds for `rva`: the middle
/// entry when it holds `rva`, else the search of the half below or above
/// it.
pub open spec fn search_in(fs: Seq<RuntimeFunction>, rva: u32, lo: int, hi: int) -> Option<RuntimeFunction>
    decreases hi - lo,
{
    if lo < 0 || hi > fs.len() || lo >= hi {
        None
    } else {
        let mid = lo + (hi - lo) / 2;
        if rva < fs[mid].begin_address {
            search_in(fs, rva, lo, mid)
        } else if rva >= fs[mid].end_address {
            search_in(fs, rva, mid + 1, hi)
        } else {
            Some(fs[mid])
        }
    }
}

/// The function of `fs` that contains `rva`, as a binary search of the
/// whole table finds it (see [`lemma_containing_function`] for what that
/// means in a sorted table).
pub open spec fn containing_function(fs: Seq<RuntimeFunction>, rva: u32) -> Option<RuntimeFunction> {
    search_in(fs, rva, 0, fs.len() as int)
}

proof fn lemma_search_in(fs: Seq<RuntimeFunction>, rva: u32, lo: int, hi: int)
    requires
        0 <= lo,
        hi <= fs.len(),
    ensures
        search_in(fs, rva, lo, hi) matches Some(f) ==> f.begin_address <= rva < f.end_address && exists|i: int|
            lo <= i < hi && fs[i] == f,
        search_in(fs, rva, lo, hi) is None && sorted_functions(fs) ==> forall|i: int| lo <= i < hi
            ==> !(#[trigger] fs[i].begin_address <= rva < fs[i].end_address),
    decreases hi - lo,
{
    if lo < hi {
        let mid = lo + (hi - lo) / 2;
        if rva < fs[mid].begin_address {
            lemma_search_in(fs, rva, lo, mid);
            if sorted_functions(fs) {
                assert forall|i: int| mid <= i < hi implies !(#[trigger] fs[i].begin_address <= rva < fs[i].end_address) by {
                    if i > mid {
                        assert(fs[mid].end_address <= fs[i].begin_address);
                    }
                }
            }
        } else if rva >= fs[mid].end_address {
            lemma_search_in(fs, rva, mid + 1, hi);
            if sorted_functions(fs) {
                assert forall|i: int| lo <= i <= mid implies !(#[trigger] fs[i].begin_address <= rva < fs[i].end_address) by {
                    if i < mid {
                        assert(fs[i].end_address <= fs[mid].begin_address);
                    }
                }
            }
        }
    }
}

/// What the search finds holds `rva` and is an entry of the table; in a
/// sorted table it finds nothing only when no entry holds `rva`, and what
/// it finds is the one entry that does.
pub proof fn lemma_containing_function(fs: Seq<RuntimeFunction>, rva: u32)
    ensures
        containing_function(fs, rva) matches Some(f) ==> f.begin_address <= rva < f.end_address && fs.contains(f),
        containing_function(fs, rva) is None && sorted_functions(fs) ==> forall|i: int| 0 <= i < fs.len()
            ==> !(#[trigger] fs[i].begin_address <= rva < fs[i].end_address),
        sorted_functions(fs) ==> forall|i: int| 0 <= i < fs.len() && (#[trigger] fs[i]).begin_address <= rva
            < fs[i].end_address ==> containing_function(fs, rva) == Some(fs[i]),
{
    lemma_search_in(fs, rva, 0, fs.len() as int);
    if sorted_functions(fs) {
        assert forall|i: int| 0 <= i < fs.len() && (#[trigger] fs[i]).begin_address <= rva < fs[i].end_address
            implies containing_function(fs, rva) == Some(fs[i]) by {
            let f = containing_function(fs, rva)->0;
            let j = choose|j: int| 0 <= j < fs.len() && fs[j] == f;
            if i < j {
                assert(fs[i].end_address <= fs[j].begin_address);
            } else if j < i {
                assert(fs[j].end_address <= fs[i].begin_address);
            }
        }
    }
}

/// The function table is sorted: each entry ends no later than the next one
/// begins, and begins no later than it ends.
pub open spec fn sorted_functions(fs: Seq<RuntimeFunction>) -> bool {
    &&& forall|i: int| 0 <= i < fs.len() ==> (#[trigger] fs[i]).begin_address <= fs[i].end_address
    &&& forall|i: int, j: int| 0 <= i < j < fs.len() ==> (#[trigger] fs[i]).end_address <= (
    #[trigger] fs[j]).begin_address
}

} // verus!
