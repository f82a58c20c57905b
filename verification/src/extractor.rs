//! Field extraction from model initializer functions.
use vstd::prelude::*;
use crate::type_parser::{DecomposedType, TypeShape, decompose_spec, decompose_type};
use crate::decode::{Insn, InsnShape, decode_all, decoded, insns_view, rva_of, target_rva};
use crate::names::{RvaMap, NameMap};
use crate::pe::{PeImage, RuntimeFunction, bytes_at, code_ip, containing_function, cstring_at, sorted_functions};
use crate::rtti::{RttiEngine, section_at, text_of};
use crate::text::{chars_of, contains_seq, contains_str, owned, str_eq};

verus! {

/// A serialised field of a model: its wire name, its type and whether the
/// registration marked it required.
#[derive(Debug, Clone, PartialEq, Eq)]
pub struct ExtractedField {
    pub name: String,
    pub field_type: DecomposedType,
    pub required: bool,
}

/// The abstract value of an [`ExtractedField`].
pub struct FieldShape {
    pub name: Seq<char>,
    pub field_type: TypeShape,
    pub required: bool,
}

impl View for ExtractedField {
    type V = FieldShape;

    open spec fn view(&self) -> FieldShape {
        FieldShape { name: self.name@, field_type: self.field_type@, required: self.required }
    }
}

/// The views of a list of fields.
pub open spec fn fields_view(s: Seq<ExtractedField>) -> Seq<FieldShape> {
    s.map_values(|f: ExtractedField| f@)
}

/// The names of a list of field views.
pub open spec fn field_names(s: Seq<FieldShape>) -> Seq<Seq<char>> {
    s.map_values(|f: FieldShape| f.name)
}

/// Copies an optional string.
pub fn copy_opt_string(o: &Option<String>) -> (r: Option<String>)
    ensures
        r.deep_view() == o.deep_view(),
{
    match o {
        Some(s) => Some(s.clone()),
        None => None,
    }
}

impl DecomposedType {
    /// A copy of this type.
    pub fn duplicate(&self) -> (r: DecomposedType)
        ensures
            r@ == self@,
    {
        DecomposedType {
            full: self.full.clone(),
            name: copy_opt_string(&self.name),
            optional: self.optional,
            array: self.array,
            map: self.map,
            map_key: copy_opt_string(&self.map_key),
            map_value: copy_opt_string(&self.map_value),
            polymorphic: self.polymorphic,
            polymorphic_base: copy_opt_string(&self.polymorphic_base),
        }
    }
}

impl ExtractedField {
    /// A copy of this field.
    pub fn duplicate(&self) -> (r: ExtractedField)
        ensures
            r@ == self@,
    {
        ExtractedField {
            name: self.name.clone(),
            field_type: self.field_type.duplicate(),
            required: self.required,
        }
    }
}

/// Copies a list of fields.
pub fn copy_fields(v: &Vec<ExtractedField>) -> (r: Vec<ExtractedField>)
    ensures
        fields_view(r@) == fields_view(v@),
{
    let mut r: Vec<ExtractedField> = Vec::new();
    let mut i: usize = 0;
    while i < v.len()
        invariant
            i <= v.len(),
            r.len() == i,
            fields_view(r@) == fields_view(v@).take(i as int),
        decreases v.len() - i,
    {
        let f = v[i].duplicate();
        let ghost prev = r@;
        r.push(f);
        i = i + 1;
        assert forall|k: int| 0 <= k < i implies fields_view(r@)[k] == fields_view(v@).take(i as int)[k] by {
            if k < i - 1 {
                assert(r@[k] == prev[k]);
                assert(fields_view(prev)[k] == fields_view(v@).take(i - 1)[k]);
            }
        }
        assert(fields_view(r@) =~= fields_view(v@).take(i as int));
    }
    assert(fields_view(v@).take(v.len() as int) =~= fields_view(v@));
    r
}

/// A field observed in an initializer together with where its evidence came
/// from: the function, the class that owns the registration, and the kind of
/// evidence that supplied its name and type.
#[derive(Debug, Clone, PartialEq, Eq)]
pub struct FieldCandidate {
    pub name: String,
    pub field_type: DecomposedType,
    pub required: bool,
    pub owner_type: Option<String>,
    pub function_rva: u32,
    pub name_source: String,
    pub type_source: String,
    pub rejection_reason: Option<String>,
}

/// The abstract value of a [`FieldCandidate`].
pub struct CandidateShape {
    pub name: Seq<char>,
    pub field_type: TypeShape,
    pub required: bool,
    pub owner_type: Option<Seq<char>>,
    pub function_rva: u32,
    pub name_source: Seq<char>,
    pub type_source: Seq<char>,
    pub rejection_reason: Option<Seq<char>>,
}

impl View for FieldCandidate {
    type V = CandidateShape;

    open spec fn view(&self) -> CandidateShape {
        CandidateShape {
            name: self.name@,
            field_type: self.field_type@,
            required: self.required,
            owner_type: self.owner_type.deep_view(),
            function_rva: self.function_rva,
            name_source: self.name_source@,
            type_source: self.type_source@,
            rejection_reason: self.rejection_reason.deep_view(),
        }
    }
}

/// The views of a list of candidates.
pub open spec fn candidates_view(s: Seq<FieldCandidate>) -> Seq<CandidateShape> {
    s.map_values(|c: FieldCandidate| c@)
}

/// The field a candidate describes.
pub open spec fn candidate_field(c: CandidateShape) -> FieldShape {
    FieldShape { name: c.name, field_type: c.field_type, required: c.required }
}

impl FieldCandidate {
    /// The field this candidate describes.
    pub fn into_field(self) -> (r: ExtractedField)
        ensures
            r@ == candidate_field(self@),
    {
        ExtractedField { name: self.name, field_type: self.field_type, required: self.required }
    }

    /// A copy of this candidate.
    pub fn duplicate(&self) -> (r: FieldCandidate)
        ensures
            r@ == self@,
    {
        FieldCandidate {
            name: self.name.clone(),
            field_type: self.field_type.duplicate(),
            required: self.required,
            owner_type: copy_opt_string(&self.owner_type),
            function_rva: self.function_rva,
            name_source: self.name_source.clone(),
            type_source: self.type_source.clone(),
            rejection_reason: copy_opt_string(&self.rejection_reason),
        }
    }
}


// ---------------------------------------------------------------------------
// Field names
// ---------------------------------------------------------------------------

/// A character that may appear in a field name.
pub open spec fn field_name_char(c: char) -> bool {
    ('a' <= c <= 'z') || ('A' <= c <= 'Z') || ('0' <= c <= '9') || c == '_' || c == '-'
}

/// A wire field name: 1 to 64 characters, starting with a letter or `_`,
/// made of letters, digits, `_` and `-`.
pub open spec fn valid_field_name(s: Seq<char>) -> bool {
    &&& 1 <= s.len() <= 64
    &&& (('a' <= s[0] <= 'z') || ('A' <= s[0] <= 'Z') || s[0] == '_')
    &&& forall|i: int| 0 <= i < s.len() ==> field_name_char(#[trigger] s[i])
}

/// Whether `s` is a wire field name (see [`valid_field_name`]).
pub fn is_valid_field_name(s: &str) -> (r: bool)
    ensures
        r == valid_field_name(s@),
{
    let cs = chars_of(s);
    if cs.len() == 0 || cs.len() > 64 {
        return false;
    }
    let first = cs[0];
    if !(('a' <= first && first <= 'z') || ('A' <= first && first <= 'Z') || first == '_') {
        return false;
    }
    let mut i: usize = 0;
    while i < cs.len()
        invariant
            i <= cs.len(),
            cs@ == s@,
            forall|k: int| 0 <= k < i ==> field_name_char(#[trigger] s@[k]),
        decreases cs.len() - i,
    {
        let c = cs[i];
        if !(('a' <= c && c <= 'z') || ('A' <= c && c <= 'Z') || ('0' <= c && c <= '9') || c == '_' || c == '-') {
            assert(!field_name_char(s@[i as int]));
            return false;
        }
        i = i + 1;
    }
    true
}

// ---------------------------------------------------------------------------
// Initializer qualification
// ---------------------------------------------------------------------------

/// The RVA of the routine that registers a serializable member; a call to
/// it marks a function as a model initializer.
pub const MEMBER_REGISTRATION_RVA: u32 = 0x35477;

/// The length of a function table entry.
pub open spec fn entry_len(f: RuntimeFunction) -> u32 {
    if f.end_address >= f.begin_address {
        (f.end_address - f.begin_address) as u32
    } else {
        0
    }
}

/// A registered value type that is a real member type (not the serialized
/// form or the member interface).
pub open spec fn member_type_ok(t: Seq<char>) -> bool {
    !contains_seq(t, "SerializedType"@) && !contains_seq(t, "ISerializableMember"@)
}

/// The member type a RIP-relative `lea` loads the registration vtable of.
pub open spec fn member_vtable_type(rtti: &RttiEngine, base: u64, i: InsnShape) -> Option<Seq<char>> {
    if i.mnemonic == "Lea"@ && i.op1_kind == "Memory"@ && i.memory_base == "RIP"@ {
        match rva_of(i.memory_displacement, base) {
            Some(t) => match text_of(rtti.smember_vtables.spec_get(t)) {
                Some(n) => if member_type_ok(n) {
                    Some(n)
                } else {
                    None
                },
                None => None,
            },
            None => None,
        }
    } else {
        None
    }
}

/// The instruction refers to a serializable member: it loads a member
/// registration vtable, or calls the member registration routine.
pub open spec fn refers_to_member(rtti: &RttiEngine, base: u64, i: InsnShape) -> bool {
    ||| member_vtable_type(rtti, base, i) is Some
    ||| (i.mnemonic == "Call"@ && rva_of(i.near_branch, base) == Some(MEMBER_REGISTRATION_RVA))
}

/// The instructions of the function containing `rva`, decoded from its
/// start with the address of `rva`, up to `limit` bytes.
pub open spec fn function_code(pe: &PeImage, rva: u32, limit: int) -> Option<Seq<InsnShape>> {
    match containing_function(pe.pdata@, rva) {
        Some(f) => {
            let n = if entry_len(f) < limit { entry_len(f) as int } else { limit };
            match bytes_at(pe.raw@, pe.sections_spec(), f.begin_address, n) {
                Some(b) => Some(decoded(b, code_ip(pe.image_base, rva))),
                None => None,
            }
        },
        None => None,
    }
}

/// The function containing `rva` refers to a serializable member.
pub open spec fn has_member_refs(pe: &PeImage, rtti: &RttiEngine, rva: u32) -> bool {
    match function_code(pe, rva, u32::MAX as int) {
        Some(ins) => exists|k: int| 0 <= k < ins.len() && refers_to_member(rtti, pe.image_base, #[trigger] ins[k]),
        None => false,
    }
}

fn member_vtable_type_exec(rtti: &RttiEngine, base: u64, i: &Insn) -> (r: Option<String>)
    requires
        rtti.wf(),
    ensures
        text_of(r) == member_vtable_type(rtti, base, i@),
{
    if !(str_eq(i.mnemonic.as_str(), "Lea") && str_eq(i.op1_kind.as_str(), "Memory") && str_eq(i.memory_base.as_str(), "RIP")) {
        return None;
    }
    match target_rva(i.memory_displacement, base) {
        Some(t) => match rtti.smember_vtables.get(t) {
            Some(n) => {
                let cs = chars_of(n.as_str());
                if !contains_str(&cs, "SerializedType") && !contains_str(&cs, "ISerializableMember") {
                    Some(n.clone())
                } else {
                    None
                }
            },
            None => None,
        },
        None => None,
    }
}

/// The code of the function containing `rva`, at most `limit` bytes (see
/// [`function_code`]).
fn function_code_exec(pe: &PeImage, rva: u32, limit: u32) -> (r: Option<Vec<Insn>>)
    ensures
        match r {
            Some(v) => function_code(pe, rva, limit as int) == Some(insns_view(v@)),
            None => function_code(pe, rva, limit as int) is None,
        },
{
    let f = match pe.find_function(rva) {
        Some(f) => f,
        None => {
            return None;
        },
    };
    let len = f.len();
    let n = if len < limit { len } else { limit };
    let code = match pe.slice_at_rva(f.begin_address, n as usize) {
        Some(c) => c,
        None => {
            return None;
        },
    };
    Some(decode_all(code, crate::pe::code_address(pe.image_base, rva)))
}

/// Whether the function containing `func_rva` refers to a serializable
/// member (see [`has_member_refs`]).
pub fn contains_serializable_member_refs(pe: &PeImage, rtti: &RttiEngine, func_rva: u32) -> (r: bool)
    requires
        rtti.wf(),
    ensures
        r == has_member_refs(pe, rtti, func_rva),
{
    let ins = match function_code_exec(pe, func_rva, 4294967295u32) {
        Some(v) => v,
        None => {
            return false;
        },
    };
    let ghost iv = insns_view(ins@);
    let mut i: usize = 0;
    while i < ins.len()
        invariant
            i <= ins.len(),
            iv == insns_view(ins@),
            rtti.wf(),
            function_code(pe, func_rva, u32::MAX as int) == Some(iv),
            forall|k: int| 0 <= k < i ==> !refers_to_member(rtti, pe.image_base, #[trigger] iv[k]),
        decreases ins.len() - i,
    {
        let insn = &ins[i];
        assert(iv[i as int] == insn@);
        if member_vtable_type_exec(rtti, pe.image_base, insn).is_some() {
            assert(refers_to_member(rtti, pe.image_base, iv[i as int]));
            proof {
                let ins_s = function_code(pe, func_rva, u32::MAX as int)->0;
                assert(ins_s == iv);
                assert(0 <= i < ins_s.len() && refers_to_member(rtti, pe.image_base, ins_s[i as int]));
            }
            return true;
        }
        if str_eq(insn.mnemonic.as_str(), "Call") {
            if let Some(t) = target_rva(insn.near_branch, pe.image_base) {
                if t == MEMBER_REGISTRATION_RVA {
                    assert(refers_to_member(rtti, pe.image_base, iv[i as int]));
                    proof {
                        let ins_s = function_code(pe, func_rva, u32::MAX as int)->0;
                        assert(ins_s == iv);
                        assert(0 <= i < ins_s.len() && refers_to_member(rtti, pe.image_base, ins_s[i as int]));
                    }
                    return true;
                }
            }
        }
        i = i + 1;
    }
    false
}


/// The magnitude of a displacement read as a signed 64-bit value.
pub open spec fn signed_magnitude(d: u64) -> int {
    if d >= 0x8000_0000_0000_0000 {
        0x1_0000_0000_0000_0000 - d
    } else {
        d as int
    }
}

/// The instruction loads a large constant into EAX (a stack probe size).
pub open spec fn loads_large_eax(i: InsnShape) -> bool {
    i.mnemonic == "Mov"@ && i.op0_register == "EAX"@ && i.op1_kind == "Immediate32"@ && i.immediate32 > 0x1000
}

/// The instruction reserves a large stack frame: `sub rsp, rax` after a
/// large EAX load, `sub rsp, imm` over 0x1000, or `lea rbp, [rsp+disp]`
/// with a displacement over 0x1000.
pub open spec fn large_frame(i: InsnShape, saw_eax: bool) -> bool {
    ||| (i.mnemonic == "Sub"@ && i.op0_register == "RSP"@ && ((i.op1_kind == "Register"@ && i.op1_register == "RAX"@
        && saw_eax) || ((i.op1_kind == "Immediate32"@ || i.op1_kind == "Immediate16"@) && i.immediate32 > 0x1000)))
    ||| (i.mnemonic == "Lea"@ && i.op0_register == "RBP"@ && i.memory_base == "RSP"@ && signed_magnitude(
        i.memory_displacement,
    ) > 0x1000)
}

/// Whether one of the instructions `k..25` reserves a large frame, `saw`
/// telling whether a large EAX load came before.
pub open spec fn large_frame_from(ins: Seq<InsnShape>, k: int, saw: bool) -> bool
    decreases ins.len() - k,
{
    if k < 0 || k >= ins.len() || k >= 25 {
        false
    } else {
        let saw2 = saw || loads_large_eax(ins[k]);
        large_frame(ins[k], saw2) || large_frame_from(ins, k + 1, saw2)
    }
}

/// The function containing `rva` looks like a large dispatch function: it
/// is over 15000 bytes long, or one of its first 25 instructions (within
/// 120 bytes) reserves a large stack frame.
pub open spec fn dispatch_like(pe: &PeImage, rva: u32) -> bool {
    match containing_function(pe.pdata@, rva) {
        Some(f) => if entry_len(f) > 15000 {
            true
        } else {
            match function_code(pe, rva, 120) {
                Some(ins) => large_frame_from(ins, 0, false),
                None => false,
            }
        },
        None => false,
    }
}

/// Whether the function containing `func_rva` looks like a dispatch
/// function (see [`dispatch_like`]).
pub fn is_dispatch_function(pe: &PeImage, func_rva: u32) -> (r: bool)
    ensures
        r == dispatch_like(pe, func_rva),
{
    match pe.find_function(func_rva) {
        Some(f) => {
            if f.len() > 15000 {
                return true;
            }
        },
        None => {
            return false;
        },
    }
    let ins = match function_code_exec(pe, func_rva, 120) {
        Some(v) => v,
        None => {
            return false;
        },
    };
    let ghost iv = insns_view(ins@);
    assert(dispatch_like(pe, func_rva) == large_frame_from(iv, 0, false));
    let mut saw = false;
    let mut i: usize = 0;
    while i < ins.len() && i < 25
        invariant
            i <= ins.len(),
            iv == insns_view(ins@),
            dispatch_like(pe, func_rva) == large_frame_from(iv, 0, false),
            large_frame_from(iv, 0, false) == large_frame_from(iv, i as int, saw),
        decreases ins.len() - i,
    {
        let insn = &ins[i];
        assert(iv[i as int] == insn@);
        if str_eq(insn.mnemonic.as_str(), "Mov") && str_eq(insn.op0_register.as_str(), "EAX") && str_eq(
            insn.op1_kind.as_str(),
            "Immediate32",
        ) && insn.immediate32 > 0x1000 {
            saw = true;
        }
        if str_eq(insn.mnemonic.as_str(), "Sub") && str_eq(insn.op0_register.as_str(), "RSP") {
            if str_eq(insn.op1_kind.as_str(), "Register") && str_eq(insn.op1_register.as_str(), "RAX") && saw {
                return true;
            }
            if (str_eq(insn.op1_kind.as_str(), "Immediate32") || str_eq(insn.op1_kind.as_str(), "Immediate16"))
                && insn.immediate32 > 0x1000 {
                return true;
            }
        }
        if str_eq(insn.mnemonic.as_str(), "Lea") && str_eq(insn.op0_register.as_str(), "RBP") && str_eq(
            insn.memory_base.as_str(),
            "RSP",
        ) {
            let d = insn.memory_displacement;
            let mag: u64 = if d >= 0x8000_0000_0000_0000u64 {
                (0xffff_ffff_ffff_ffffu64 - d) + 1
            } else {
                d
            };
            if mag > 0x1000 {
                return true;
            }
        }
        i = i + 1;
    }
    false
}


// ---------------------------------------------------------------------------
// Vtable cross references
// ---------------------------------------------------------------------------

/// For each vtable, the functions whose code loads its address, each once,
/// in the order they were first seen.
pub struct VtableXrefIndex {
    pub vtable_to_funcs: RvaMap<Vec<u32>>,
}

/// The instructions of the `.text` section, decoded from its start.
pub open spec fn text_code(pe: &PeImage) -> Option<Seq<InsnShape>> {
    match section_at(pe, ".text"@) {
        Some((d, va)) => Some(decoded(d, code_ip(pe.image_base, va))),
        None => None,
    }
}

/// The vtable RTTI knows whose address a RIP-relative `lea` loads.
pub open spec fn vtable_ref(pe: &PeImage, rtti: &RttiEngine, i: InsnShape) -> Option<u32> {
    if i.mnemonic == "Lea"@ && i.op1_kind == "Memory"@ && i.memory_base == "RIP"@ {
        match rva_of(i.memory_displacement, pe.image_base) {
            Some(t) => if rtti.vtable_to_type.spec_get(t) is Some {
                Some(t)
            } else {
                None
            },
            None => None,
        }
    } else {
        None
    }
}

/// Instruction `i` of the text lies in the function table entry `f`.
pub open spec fn in_function(pe: &PeImage, i: InsnShape, f: RuntimeFunction) -> bool {
    rva_of(i.ip, pe.image_base) matches Some(r) && f.begin_address <= r < f.end_address
}

/// One of the first `bound` text instructions loads vtable `v` from inside
/// a function starting at `f`.
pub open spec fn references_before(pe: &PeImage, rtti: &RttiEngine, ins: Seq<InsnShape>, bound: int, v: u32, f: u32) -> bool {
    exists|k: int, j: int|
        #![trigger ins[k], pe.pdata@[j]]
        0 <= k < bound && k < ins.len() && 0 <= j < pe.pdata@.len() && vtable_ref(pe, rtti, ins[k]) == Some(v)
            && in_function(pe, ins[k], pe.pdata@[j]) && pe.pdata@[j].begin_address == f
}

/// The numbers of `s` are distinct.
pub open spec fn distinct_rvas(s: Seq<u32>) -> bool {
    forall|x: int, y: int| 0 <= x < y < s.len() ==> s[x] != s[y]
}

/// The index lists, for each vtable, functions that load it, each once;
/// with a sorted function table, every such function.
pub open spec fn xrefs_hold(pe: &PeImage, rtti: &RttiEngine, m: &RvaMap<Vec<u32>>, ins: Seq<InsnShape>, bound: int) -> bool {
    &&& m.wf()
    &&& forall|v: u32| #[trigger] m.spec_get(v) matches Some(l) ==> distinct_rvas(l@) && forall|f: u32|
        #![trigger l@.contains(f)] l@.contains(f) ==> references_before(pe, rtti, ins, bound, v, f)
    &&& sorted_functions(pe.pdata@) ==> forall|v: u32, f: u32| #[trigger] references_before(pe, rtti, ins, bound, v, f)
        ==> (m.spec_get(v) matches Some(l) && l@.contains(f))
}

fn vtable_ref_exec(pe: &PeImage, rtti: &RttiEngine, i: &Insn) -> (r: Option<u32>)
    requires
        rtti.wf(),
    ensures
        r == vtable_ref(pe, rtti, i@),
{
    if !(str_eq(i.mnemonic.as_str(), "Lea") && str_eq(i.op1_kind.as_str(), "Memory") && str_eq(i.memory_base.as_str(), "RIP")) {
        return None;
    }
    match target_rva(i.memory_displacement, pe.image_base) {
        Some(t) => if rtti.vtable_to_type.contains_key(t) {
            Some(t)
        } else {
            None
        },
        None => None,
    }
}

proof fn lemma_refs_extend(pe: &PeImage, rtti: &RttiEngine, ins: Seq<InsnShape>, k: int)
    requires
        0 <= k < ins.len(),
    ensures
        forall|v: u32, f: u32| #[trigger] references_before(pe, rtti, ins, k, v, f) ==> references_before(pe, rtti, ins, k + 1, v, f),
        forall|v: u32, f: u32| #[trigger] references_before(pe, rtti, ins, k + 1, v, f) ==> references_before(pe, rtti, ins, k, v, f)
            || (vtable_ref(pe, rtti, ins[k]) == Some(v) && exists|j: int| 0 <= j < pe.pdata@.len() && in_function(pe, ins[k], #[trigger] pe.pdata@[j])
            && pe.pdata@[j].begin_address == f),
{
    assert forall|v: u32, f: u32| #[trigger] references_before(pe, rtti, ins, k + 1, v, f) implies references_before(pe, rtti, ins, k, v, f)
        || (vtable_ref(pe, rtti, ins[k]) == Some(v) && exists|j: int| 0 <= j < pe.pdata@.len() && in_function(pe, ins[k], #[trigger] pe.pdata@[j])
        && pe.pdata@[j].begin_address == f) by {
        let (kk, j) = choose|kk: int, j: int| 0 <= kk < k + 1 && kk < ins.len() && 0 <= j < pe.pdata@.len() && vtable_ref(pe, rtti, ins[kk]) == Some(v)
            && in_function(pe, ins[kk], pe.pdata@[j]) && pe.pdata@[j].begin_address == f;
        if kk < k {
            assert(references_before(pe, rtti, ins, k, v, f));
        }
    }
    assert forall|v: u32, f: u32| #[trigger] references_before(pe, rtti, ins, k, v, f) implies references_before(pe, rtti, ins, k + 1, v, f) by {
        let (kk, j) = choose|kk: int, j: int| 0 <= kk < k && kk < ins.len() && 0 <= j < pe.pdata@.len() && vtable_ref(pe, rtti, ins[kk]) == Some(v)
            && in_function(pe, ins[kk], pe.pdata@[j]) && pe.pdata@[j].begin_address == f;
        assert(ins[kk] == ins[kk] && pe.pdata@[j] == pe.pdata@[j]);
    }
}

proof fn lemma_xrefs_same(pe: &PeImage, rtti: &RttiEngine, m: &RvaMap<Vec<u32>>, ins: Seq<InsnShape>, k: int)
    requires
        0 <= k < ins.len(),
        xrefs_hold(pe, rtti, m, ins, k),
        vtable_ref(pe, rtti, ins[k]) is None || (sorted_functions(pe.pdata@) ==> forall|j: int| 0 <= j < pe.pdata@.len()
            ==> !in_function(pe, ins[k], #[trigger] pe.pdata@[j])),
        forall|v: u32, f: u32| #[trigger] references_before(pe, rtti, ins, k, v, f) ==> references_before(pe, rtti, ins, k + 1, v, f),
        forall|v: u32, f: u32| #[trigger] references_before(pe, rtti, ins, k + 1, v, f) ==> references_before(pe, rtti, ins, k, v, f)
            || (vtable_ref(pe, rtti, ins[k]) == Some(v) && exists|j: int| 0 <= j < pe.pdata@.len() && in_function(pe, ins[k], #[trigger] pe.pdata@[j])
            && pe.pdata@[j].begin_address == f),
    ensures
        xrefs_hold(pe, rtti, m, ins, k + 1),
{
    assert forall|v: u32| #[trigger] m.spec_get(v) matches Some(l) ==> distinct_rvas(l@) && forall|f: u32|
        #![trigger l@.contains(f)] l@.contains(f) ==> references_before(pe, rtti, ins, k + 1, v, f) by {
        if m.spec_get(v) is Some {
            let l = m.spec_get(v)->0;
            assert forall|f: u32| #![trigger l@.contains(f)] l@.contains(f) implies references_before(pe, rtti, ins, k + 1, v, f) by {
                assert(references_before(pe, rtti, ins, k, v, f));
            }
        }
    }
    if sorted_functions(pe.pdata@) {
        assert forall|v: u32, f: u32| #[trigger] references_before(pe, rtti, ins, k + 1, v, f) implies (m.spec_get(v) matches Some(l) && l@.contains(f)) by {
            assert(references_before(pe, rtti, ins, k, v, f));
        }
    }
}

impl VtableXrefIndex {
    /// Indexes the functions of `.text` by the vtables their code loads.
    #[verifier::rlimit(40)]
    pub fn build(pe: &PeImage, rtti: &RttiEngine) -> (r: VtableXrefIndex)
        requires
            rtti.wf(),
        ensures
            match text_code(pe) {
                Some(ins) => xrefs_hold(pe, rtti, &r.vtable_to_funcs, ins, ins.len() as int),
                None => r.vtable_to_funcs.wf() && forall|v: u32| #[trigger] r.vtable_to_funcs.spec_get(v) is None,
            },
    {
        let mut m: RvaMap<Vec<u32>> = RvaMap::new();
        proof {
            assert forall|v: u32| #[trigger] m.spec_get(v) is None by {
                m.lemma_rva_domain(v);
            }
        }
        let (data, va) = match (pe.section_data(".text"), pe.section_by_name(".text")) {
            (Some(d), Some(s)) => (d, s.virtual_address),
            _ => {
                return VtableXrefIndex { vtable_to_funcs: m };
            },
        };
        assert(section_at(pe, ".text"@) == Some((data@, va)));
        let ins = decode_all(data, crate::pe::code_address(pe.image_base, va));
        let ghost iv = insns_view(ins@);
        let mut k: usize = 0;
        while k < ins.len()
            invariant
                k <= ins.len(),
                iv == insns_view(ins@),
                rtti.wf(),
                xrefs_hold(pe, rtti, &m, iv, k as int),
            decreases ins.len() - k,
        {
            let insn = &ins[k];
            assert(iv[k as int] == insn@);
            let ghost m0 = m;
            proof {
                lemma_refs_extend(pe, rtti, iv, k as int);
            }
            if let Some(t) = vtable_ref_exec(pe, rtti, insn) {
                if let Some(ir) = target_rva(insn.ip, pe.image_base) {
                    if let Some(func) = pe.find_function(ir) {
                        let fb = func.begin_address;
                        let mut list: Vec<u32> = match m.get(t) {
                            Some(l) => l.clone(),
                            None => Vec::new(),
                        };
                        let ghost l0 = list@;
                        let mut present = false;
                        let mut q: usize = 0;
                        while q < list.len()
                            invariant
                                q <= list.len(),
                                list@ == l0,
                                present ==> list@.contains(fb),
                                !present ==> forall|x: int| 0 <= x < q ==> list@[x] != fb,
                            decreases list.len() - q,
                        {
                            if list[q] == fb {
                                present = true;
                            }
                            q = q + 1;
                        }
                        if !present {
                            list.push(fb);
                        }
                        let ghost l1 = list@;
                        m.insert(t, list);
                        proof {
                            let j = choose|j: int| 0 <= j < pe.pdata@.len() && pe.pdata@[j] == *func;
                            assert(in_function(pe, iv[k as int], pe.pdata@[j]));
                            assert(references_before(pe, rtti, iv, k + 1, t, fb));
                            assert(forall|f: u32| l1.contains(f) <==> (l0.contains(f) || f == fb)) by {
                                assert forall|f: u32| l1.contains(f) <==> (l0.contains(f) || f == fb) by {
                                    if !present {
                                        if l1.contains(f) {
                                            let x = choose|x: int| 0 <= x < l1.len() && l1[x] == f;
                                            if x < l0.len() {
                                                assert(l0[x] == f);
                                            }
                                        }
                                        if l0.contains(f) {
                                            let x = choose|x: int| 0 <= x < l0.len() && l0[x] == f;
                                            assert(l1[x] == f);
                                        }
                                        if f == fb {
                                            assert(l1[l0.len() as int] == f);
                                        }
                                    }
                                }
                            }
                            assert(m0.spec_get(t) matches Some(l) ==> l@ == l0);
                            assert(m0.spec_get(t) is None ==> l0 == Seq::<u32>::empty());
                            assert(distinct_rvas(l1)) by {
                                if m0.spec_get(t) is Some {
                                    assert(distinct_rvas(l0));
                                }
                                assert forall|x: int, y: int| 0 <= x < y < l1.len() implies l1[x] != l1[y] by {
                                    if !present && y == l0.len() {
                                        assert(l1[x] == l0[x]);
                                    } else {
                                        assert(l1[x] == l0[x] && l1[y] == l0[y]);
                                    }
                                }
                            }
                            assert forall|v: u32| #[trigger] m.spec_get(v) matches Some(l) ==> distinct_rvas(l@) && forall|f: u32|
                                #![trigger l@.contains(f)] l@.contains(f) ==> references_before(pe, rtti, iv, k + 1, v, f) by {
                                if v != t {
                                    assert(m.spec_get(v) == m0.spec_get(v));
                                } else {
                                    assert forall|f: u32| #![trigger l1.contains(f)] l1.contains(f) implies references_before(pe, rtti, iv, k + 1, v, f) by {
                                        if f != fb {
                                            assert(l0.contains(f));
                                            let l = m0.spec_get(t)->0;
                                            assert(l@.contains(f));
                                        }
                                    }
                                }
                            }
                            if sorted_functions(pe.pdata@) {
                                assert forall|v: u32, f: u32| #[trigger] references_before(pe, rtti, iv, k + 1, v, f) implies (m.spec_get(v) matches Some(l) && l@.contains(f)) by {
                                    if references_before(pe, rtti, iv, k as int, v, f) {
                                        if v != t {
                                            assert(m.spec_get(v) == m0.spec_get(v));
                                        } else {
                                            let l = m0.spec_get(t)->0;
                                            assert(l@.contains(f));
                                        }
                                    } else {
                                        let jj = choose|jj: int| 0 <= jj < pe.pdata@.len() && in_function(pe, iv[k as int], pe.pdata@[jj]) && pe.pdata@[jj].begin_address == f;
                                        if jj != j {
                                            if jj < j {
                                                assert(pe.pdata@[jj].end_address <= pe.pdata@[j].begin_address);
                                            } else {
                                                assert(pe.pdata@[j].end_address <= pe.pdata@[jj].begin_address);
                                            }
                                        }
                                    }
                                }
                            }
                        }
                    } else {
                        proof {
                            lemma_xrefs_same(pe, rtti, &m, iv, k as int);
                        }
                    }
                } else {
                    proof {
                        lemma_xrefs_same(pe, rtti, &m, iv, k as int);
                    }
                }
            } else {
                proof {
                    lemma_xrefs_same(pe, rtti, &m, iv, k as int);
                }
            }
            k = k + 1;
        }
        VtableXrefIndex { vtable_to_funcs: m }
    }
}


// ---------------------------------------------------------------------------
// Helper type inference
// ---------------------------------------------------------------------------

/// What inferring helper types has learned: for each helper RVA looked at,
/// the member type it registers, if any.
pub type HelperCache = Map<u32, Option<Seq<char>>>;

/// The member type a helper function at `target` registers, looked up at
/// nesting `depth` with `cache` holding earlier answers; with the cache as
/// it is afterwards. A helper is read as its first 256 bytes and at most 50
/// instructions: a `lea` of a member registration vtable gives the type; a
/// direct `jmp` ends the helper, giving what its target registers; a direct
/// `call` gives what its target registers, if anything; a `ret` ends it.
/// Past depth 4 nothing is inferred; a helper whose bytes cannot be read is
/// not remembered.
pub open spec fn helper_type(pe: &PeImage, rtti: &RttiEngine, target: u32, cache: HelperCache, depth: int) -> (
    Option<Seq<char>>,
    HelperCache,
)
    decreases 5 - depth, 1int, 0int,
{
    if depth > 4 || depth < 0 {
        (None, cache)
    } else if cache.contains_key(target) {
        (cache[target], cache)
    } else {
        match bytes_at(pe.raw@, pe.sections_spec(), target, 256) {
            Some(b) => {
                let r = helper_scan(pe, rtti, decoded(b, code_ip(pe.image_base, target)), 0, cache, depth);
                (r.0, r.1.insert(target, r.0))
            },
            None => (None, cache),
        }
    }
}

/// The scan of a helper's instructions from `k` (see [`helper_type`]).
pub open spec fn helper_scan(pe: &PeImage, rtti: &RttiEngine, ins: Seq<InsnShape>, k: int, cache: HelperCache, depth: int) -> (
    Option<Seq<char>>,
    HelperCache,
)
    decreases 5 - depth, 0int, ins.len() - k,
{
    if k < 0 || k >= ins.len() || k >= 50 || depth > 4 || depth < 0 {
        (None, cache)
    } else {
        let i = ins[k];
        if i.mnemonic == "Lea"@ && i.op1_kind == "Memory"@ && i.memory_base == "RIP"@ {
            match member_vtable_type(rtti, pe.image_base, i) {
                Some(t) => (Some(t), cache),
                None => helper_scan(pe, rtti, ins, k + 1, cache, depth),
            }
        } else if i.mnemonic == "Jmp"@ {
            if i.op0_kind == "NearBranch64"@ && rva_of(i.near_branch, pe.image_base) is Some {
                helper_type(pe, rtti, rva_of(i.near_branch, pe.image_base)->0, cache, depth + 1)
            } else {
                (None, cache)
            }
        } else if i.mnemonic == "Call"@ {
            if i.op0_kind == "NearBranch64"@ && rva_of(i.near_branch, pe.image_base) is Some {
                let r = helper_type(pe, rtti, rva_of(i.near_branch, pe.image_base)->0, cache, depth + 1);
                if r.0 is Some {
                    r
                } else {
                    helper_scan(pe, rtti, ins, k + 1, r.1, depth)
                }
            } else {
                helper_scan(pe, rtti, ins, k + 1, cache, depth)
            }
        } else if i.mnemonic == "Ret"@ {
            (None, cache)
        } else {
            helper_scan(pe, rtti, ins, k + 1, cache, depth)
        }
    }
}

/// The abstract value of a helper cache.
pub open spec fn cache_view(m: &RvaMap<Option<String>>) -> HelperCache {
    Map::new(|k: u32| m.spec_get(k) is Some, |k: u32| text_of(m.spec_get(k)->0))
}


/// Reads fields from model initializer functions.
pub struct FieldExtractor<'a> {
    pub pe: &'a PeImage<'a>,
    pub rtti: &'a RttiEngine,
}

proof fn lemma_cache_insert(m0: RvaMap<Option<String>>, m1: RvaMap<Option<String>>, k: u32, tv: Option<Seq<char>>)
    requires
        m1.spec_get(k) is Some,
        text_of(m1.spec_get(k)->0) == tv,
        forall|q: u32| q != k ==> #[trigger] m1.spec_get(q) == m0.spec_get(q),
    ensures
        cache_view(&m1) == cache_view(&m0).insert(k, tv),
{
    assert(cache_view(&m1) =~= cache_view(&m0).insert(k, tv));
}

impl<'a> FieldExtractor<'a> {
    /// An extractor over an image and its RTTI.
    pub fn new(pe: &'a PeImage<'a>, rtti: &'a RttiEngine) -> (r: FieldExtractor<'a>)
        ensures
            r.pe == pe,
            r.rtti == rtti,
    {
        FieldExtractor { pe, rtti }
    }

    /// The member type the helper at `target_rva` registers (see
    /// [`helper_type`]), remembering answers in `cache`.
    fn infer_helper_type(&self, target_rva: u32, cache: &mut RvaMap<Option<String>>, depth: usize) -> (r: Option<String>)
        requires
            self.rtti.wf(),
            old(cache).wf(),
        ensures
            final(cache).wf(),
            (text_of(r), cache_view(final(cache))) == helper_type(self.pe, self.rtti, target_rva, cache_view(old(cache)), depth as int),
        decreases 5 - depth, 1int, 0int,
    {
        let pe = self.pe;
        let rtti = self.rtti;
        if depth > 4 {
            return None;
        }
        proof {
            cache.lemma_rva_domain(target_rva);
        }
        if let Some(cached) = cache.get(target_rva) {
            return crate::extractor::copy_opt_string(cached);
        }
        let slice = match pe.slice_at_rva(target_rva, 256) {
            Some(b) => b,
            None => {
                return None;
            },
        };
        let ins = decode_all(slice, crate::pe::code_address(pe.image_base, target_rva));
        let ghost iv = insns_view(ins@);
        let ghost c0 = cache_view(cache);
        let mut last: Option<String> = None;
        let mut k: usize = 0;
        let mut done = false;
        while !done && k < ins.len() && k < 50
            invariant
                k <= ins.len(),
                iv == insns_view(ins@),
                self.rtti.wf(),
                cache.wf(),
                depth <= 4,
                pe == self.pe,
                rtti == self.rtti,
                !done ==> last is None && helper_scan(pe, rtti, iv, 0, c0, depth as int) == helper_scan(pe, rtti, iv, k as int, cache_view(cache), depth as int),
                done ==> helper_scan(pe, rtti, iv, 0, c0, depth as int) == (text_of(last), cache_view(cache)),
            decreases ins.len() - k, if done { 0int } else { 1int },
        {
            let insn = &ins[k];
            assert(iv[k as int] == insn@);
            let m = insn.mnemonic.as_str();
            if str_eq(m, "Lea") && str_eq(insn.op1_kind.as_str(), "Memory") && str_eq(insn.memory_base.as_str(), "RIP") {
                match member_vtable_type_exec(rtti, pe.image_base, insn) {
                    Some(t) => {
                        last = Some(t);
                        done = true;
                    },
                    None => {},
                }
            } else if str_eq(m, "Jmp") {
                if str_eq(insn.op0_kind.as_str(), "NearBranch64") {
                    if let Some(jr) = crate::decode::target_rva(insn.near_branch, pe.image_base) {
                        last = self.infer_helper_type(jr, cache, depth + 1);
                    }
                }
                done = true;
            } else if str_eq(m, "Call") {
                if str_eq(insn.op0_kind.as_str(), "NearBranch64") {
                    if let Some(cr) = crate::decode::target_rva(insn.near_branch, pe.image_base) {
                        let t = self.infer_helper_type(cr, cache, depth + 1);
                        if t.is_some() {
                            last = t;
                            done = true;
                        }
                    }
                }
            } else if str_eq(m, "Ret") {
                done = true;
            }
            if !done {
                k = k + 1;
            }
        }
        let ghost mid = *cache;
        proof {
            if !done {
                assert(helper_scan(pe, rtti, iv, k as int, cache_view(cache), depth as int) == (None::<Seq<char>>, cache_view(cache)));
            }
        }
        let stored = crate::extractor::copy_opt_string(&last);
        assert(text_of(stored) == text_of(last));
        cache.insert(target_rva, stored);
        proof {
            lemma_cache_insert(mid, *cache, target_rva, text_of(last));
            assert(!c0.contains_key(target_rva));
        }
        last
    }
}


// ---------------------------------------------------------------------------
// Field extraction: the register-tracking scan
// ---------------------------------------------------------------------------

/// What a register is known to hold during field extraction.
pub enum ExReg {
    StringLiteral,
    MemberVtable(Seq<char>, Option<Seq<char>>),
    Imm,
}

/// A field whose name has been seen and whose type and flag may follow.
pub struct PendingShape {
    pub name: Seq<char>,
    pub idx: int,
    pub field_type_name: Option<Seq<char>>,
    pub owner: Option<Seq<char>>,
    pub source: Seq<char>,
    pub type_idx: Option<int>,
    pub required: Option<bool>,
}

/// The state of an extraction scan.
pub struct ExtractState {
    pub regs: Map<Seq<char>, ExReg>,
    pub fields: Seq<CandidateShape>,
    pub pending: Option<PendingShape>,
    pub r9: Option<bool>,
    pub cache: HelperCache,
    pub idx: int,
}

/// Where a field's name came from: a string literal loaded with `lea`.
pub open spec fn name_source_text() -> Seq<char> {
    "string_literal"@
}

/// A field type read from a member registration vtable.
pub open spec fn vtable_source_text() -> Seq<char> {
    "member_vtable"@
}

/// A field type inferred from a registration helper that was called.
pub open spec fn helper_source_text() -> Seq<char> {
    "helper_call"@
}

/// The names of candidate views.
pub open spec fn candidate_names(s: Seq<CandidateShape>) -> Seq<Seq<char>> {
    s.map_values(|c: CandidateShape| c.name)
}

/// `fields` with the pending field added, when it has a type and its name
/// is new: the type decomposed, required only when marked so and not
/// optional.
pub open spec fn commit(fields: Seq<CandidateShape>, pf: PendingShape, frva: u32) -> Seq<CandidateShape> {
    match pf.field_type_name {
        Some(raw) => {
            let t = decompose_spec(raw);
            if candidate_names(fields).contains(pf.name) {
                fields
            } else {
                fields.push(
                    CandidateShape {
                        name: pf.name,
                        field_type: t,
                        required: if t.optional { false } else { pf.required == Some(true) },
                        owner_type: pf.owner,
                        function_rva: frva,
                        name_source: name_source_text(),
                        type_source: pf.source,
                        rejection_reason: None,
                    },
                )
            }
        },
        None => fields,
    }
}

/// The pending field given type `t` from `source` at instruction `idx`.
pub open spec fn with_type(pf: PendingShape, t: Seq<char>, owner: Option<Seq<char>>, source: Seq<char>, idx: int) -> PendingShape {
    PendingShape { field_type_name: Some(t), owner, source, type_idx: Some(idx), ..pf }
}

/// Effect of a `lea` (at instruction number `st.idx`).
pub open spec fn lea_ex(pe: &PeImage, rtti: &RttiEngine, frva: u32, st: ExtractState, i: InsnShape) -> ExtractState {
    let dest = i.op0_full_register;
    if i.op1_kind == "Memory"@ && i.memory_base == "RIP"@ && rva_of(i.memory_displacement, pe.image_base) is Some {
        let t = rva_of(i.memory_displacement, pe.image_base)->0;
        match member_vtable_type(rtti, pe.image_base, i) {
            Some(inner) => {
                let owner = text_of(rtti.smember_owners.spec_get(t));
                let pending = match st.pending {
                    Some(pf) => if st.idx - pf.idx <= 35 {
                        Some(with_type(pf, inner, owner, vtable_source_text(), st.idx))
                    } else {
                        Some(pf)
                    },
                    None => None,
                };
                ExtractState { regs: st.regs.insert(dest, ExReg::MemberVtable(inner, owner)), pending, ..st }
            },
            None => if rtti.vtable_to_type.spec_get(t) is Some {
                ExtractState { regs: st.regs.remove(dest), ..st }
            } else {
                match cstring_at(pe.raw@, pe.sections_spec(), t) {
                    Some(name) => if valid_field_name(name) {
                        let fields = match st.pending {
                            Some(pf) => commit(st.fields, pf, frva),
                            None => st.fields,
                        };
                        ExtractState {
                            regs: st.regs.insert(dest, ExReg::StringLiteral),
                            fields,
                            pending: Some(
                                PendingShape {
                                    name,
                                    idx: st.idx,
                                    field_type_name: None,
                                    owner: None,
                                    source: Seq::empty(),
                                    type_idx: None,
                                    required: None,
                                },
                            ),
                            ..st
                        }
                    } else {
                        ExtractState { regs: st.regs.remove(dest), ..st }
                    },
                    None => ExtractState { regs: st.regs.remove(dest), ..st },
                }
            },
        }
    } else {
        ExtractState { regs: st.regs.remove(dest), ..st }
    }
}

/// An immediate operand of 32 or 8 bits.
pub open spec fn small_immediate(kind: Seq<char>) -> bool {
    kind == "Immediate32"@ || kind == "Immediate8"@
}

/// Effect of a `mov`.
pub open spec fn mov_ex(st: ExtractState, i: InsnShape) -> ExtractState {
    if i.op0_kind == "Memory"@ && i.memory_base != "RIP"@ && i.memory_base != "None"@ {
        if small_immediate(i.op1_kind) {
            let imm = i.immediate32;
            match st.pending {
                Some(pf) => if (imm == 1 || imm == 2) && pf.field_type_name is Some && st.idx - (match pf.type_idx {
                    Some(x) => x,
                    None => 0,
                }) <= 10 {
                    ExtractState { pending: Some(PendingShape { required: Some(imm == 1), ..pf }), ..st }
                } else {
                    st
                },
                None => st,
            }
        } else if i.op1_kind == "Register"@ && crate::decode::gpr64_name(i.op1_register) {
            match (st.regs.get(i.op1_full_register), st.pending) {
                (Some(ExReg::MemberVtable(t, o)), Some(pf)) => if st.idx - pf.idx <= 35 {
                    ExtractState { pending: Some(with_type(pf, t, o, vtable_source_text(), st.idx)), ..st }
                } else {
                    st
                },
                _ => st,
            }
        } else {
            st
        }
    } else if i.op0_kind == "Register"@ {
        let dest = i.op0_full_register;
        if i.op1_kind == "Register"@ {
            match st.regs.get(i.op1_full_register) {
                Some(v) => ExtractState { regs: st.regs.insert(dest, v), ..st },
                None => ExtractState { regs: st.regs.remove(dest), ..st },
            }
        } else if small_immediate(i.op1_kind) {
            let imm = i.immediate32;
            let r9 = if dest == "R9"@ && (imm == 1 || imm == 2) {
                Some(imm == 1)
            } else {
                st.r9
            };
            ExtractState { regs: st.regs.insert(dest, ExReg::Imm), r9, ..st }
        } else {
            ExtractState { regs: st.regs.remove(dest), ..st }
        }
    } else {
        st
    }
}

/// Effect of a `xor` or `sub`: a register cleared with itself holds an
/// immediate; any other written register is forgotten.
pub open spec fn xor_sub_ex(st: ExtractState, i: InsnShape) -> ExtractState {
    if i.op0_kind == "Register"@ {
        let dest = i.op0_full_register;
        if i.op1_kind == "Register"@ && dest == i.op1_full_register {
            ExtractState { regs: st.regs.insert(dest, ExReg::Imm), ..st }
        } else {
            ExtractState { regs: st.regs.remove(dest), ..st }
        }
    } else {
        st
    }
}

/// The volatile registers a call clobbers.
pub open spec fn clobbered() -> Set<Seq<char>> {
    set!["RAX"@, "RCX"@, "RDX"@, "R8"@, "R9"@, "R10"@, "R11"@]
}

/// Effect of a `call`: the pending field takes the flag passed in R9, and,
/// when it has no type yet and the call is near, the type the called
/// helper registers; the volatile registers are forgotten.
pub open spec fn call_ex(pe: &PeImage, rtti: &RttiEngine, st: ExtractState, i: InsnShape) -> ExtractState {
    let after = match st.pending {
        Some(pf0) => {
            let pf = match st.r9 {
                Some(req) => PendingShape { required: Some(req), ..pf0 },
                None => pf0,
            };
            if pf.field_type_name is None && st.idx - pf.idx <= 35 && rva_of(i.near_branch, pe.image_base) is Some
                && rva_of(i.near_branch, pe.image_base)->0 != MEMBER_REGISTRATION_RVA {
                let h = helper_type(pe, rtti, rva_of(i.near_branch, pe.image_base)->0, st.cache, 0);
                let pf2 = match h.0 {
                    Some(t) => with_type(pf, t, None, helper_source_text(), st.idx),
                    None => pf,
                };
                ExtractState { pending: Some(pf2), cache: h.1, ..st }
            } else {
                ExtractState { pending: Some(pf), ..st }
            }
        },
        None => st,
    };
    ExtractState { r9: None, regs: after.regs.remove_keys(clobbered()), ..after }
}

/// Effect of one instruction: its number is counted, then its mnemonic
/// decides.
pub open spec fn extract_step(pe: &PeImage, rtti: &RttiEngine, frva: u32, st0: ExtractState, i: InsnShape) -> ExtractState {
    let st = ExtractState { idx: st0.idx + 1, ..st0 };
    if i.mnemonic == "Lea"@ {
        lea_ex(pe, rtti, frva, st, i)
    } else if i.mnemonic == "Mov"@ {
        mov_ex(st, i)
    } else if i.mnemonic == "Xor"@ || i.mnemonic == "Sub"@ {
        xor_sub_ex(st, i)
    } else if i.mnemonic == "Call"@ {
        call_ex(pe, rtti, st, i)
    } else {
        st
    }
}

/// The state before the first instruction.
pub open spec fn initial_extract_state() -> ExtractState {
    ExtractState { regs: Map::empty(), fields: Seq::empty(), pending: None, r9: None, cache: Map::empty(), idx: 0 }
}

/// The state after the first `n` instructions.
pub open spec fn extract_prefix(pe: &PeImage, rtti: &RttiEngine, frva: u32, ins: Seq<InsnShape>, n: int) -> ExtractState
    decreases n,
{
    if n <= 0 {
        initial_extract_state()
    } else {
        extract_step(pe, rtti, frva, extract_prefix(pe, rtti, frva, ins, n - 1), ins[n - 1])
    }
}

/// The fields of a finished scan: the pending field committed.
pub open spec fn finished_fields(st: ExtractState, frva: u32) -> Seq<CandidateShape> {
    match st.pending {
        Some(pf) => commit(st.fields, pf, frva),
        None => st.fields,
    }
}

/// The field candidates the function containing `rva` registers, read from
/// its whole code.
pub open spec fn extracted_candidates(pe: &PeImage, rtti: &RttiEngine, rva: u32) -> Seq<CandidateShape> {
    match containing_function(pe.pdata@, rva) {
        Some(f) => match bytes_at(pe.raw@, pe.sections_spec(), f.begin_address, entry_len(f) as int) {
            Some(b) => {
                let ins = decoded(b, code_ip(pe.image_base, f.begin_address));
                finished_fields(extract_prefix(pe, rtti, f.begin_address, ins, ins.len() as int), f.begin_address)
            },
            None => Seq::empty(),
        },
        None => Seq::empty(),
    }
}


/// What a register is known to hold during field extraction.
#[derive(Debug)]
pub enum RegVal {
    StringLiteral,
    MemberVtable(String, Option<String>),
    Imm,
}

impl View for RegVal {
    type V = ExReg;

    open spec fn view(&self) -> ExReg {
        match self {
            RegVal::StringLiteral => ExReg::StringLiteral,
            RegVal::MemberVtable(t, o) => ExReg::MemberVtable(t@, text_of(*o)),
            RegVal::Imm => ExReg::Imm,
        }
    }
}

impl RegVal {
    /// A copy of the value.
    pub fn duplicate(&self) -> (r: RegVal)
        ensures
            r@ == self@,
    {
        match self {
            RegVal::StringLiteral => RegVal::StringLiteral,
            RegVal::MemberVtable(t, o) => {
                let oc = copy_opt_string(o);
                assert(text_of(oc) == text_of(*o));
                RegVal::MemberVtable(t.clone(), oc)
            },
            RegVal::Imm => RegVal::Imm,
        }
    }
}

/// A field whose name has been seen and whose type and flag may follow.
pub struct PendingField {
    pub name: String,
    pub insn_idx: usize,
    pub field_type_name: Option<String>,
    pub owner: Option<String>,
    pub source: String,
    pub type_insn_idx: Option<usize>,
    pub required: Option<bool>,
}

impl View for PendingField {
    type V = PendingShape;

    open spec fn view(&self) -> PendingShape {
        PendingShape {
            name: self.name@,
            idx: self.insn_idx as int,
            field_type_name: text_of(self.field_type_name),
            owner: text_of(self.owner),
            source: self.source@,
            type_idx: match self.type_insn_idx {
                Some(x) => Some(x as int),
                None => None,
            },
            required: self.required,
        }
    }
}

/// The optional pending field's view.
pub open spec fn pending_view(p: Option<PendingField>) -> Option<PendingShape> {
    match p {
        Some(pf) => Some(pf@),
        None => None,
    }
}

/// What the register map holds for `k`.
pub open spec fn ex_reg_of(m: &NameMap<Option<RegVal>>, k: Seq<char>) -> Option<ExReg> {
    match m.spec_get(k) {
        Some(Some(v)) => Some(v@),
        _ => None,
    }
}

/// The exec state of an extraction scan.
pub struct ExtractScan {
    pub regs: NameMap<Option<RegVal>>,
    pub fields: Vec<FieldCandidate>,
    pub pending: Option<PendingField>,
    pub r9: Option<bool>,
    pub cache: RvaMap<Option<String>>,
    pub idx: usize,
}

impl ExtractScan {
    /// The scan holds what `st` says.
    pub open spec fn matches(&self, st: ExtractState) -> bool {
        &&& self.regs.wf()
        &&& forall|k: Seq<char>| #[trigger] ex_reg_of(&self.regs, k) == st.regs.get(k)
        &&& candidates_view(self.fields@) == st.fields
        &&& pending_view(self.pending) == st.pending
        &&& self.r9 == st.r9
        &&& self.cache.wf()
        &&& cache_view(&self.cache) == st.cache
        &&& self.idx == st.idx
    }

    /// Sets register `r` to `v`, or clears it.
    fn put(&mut self, r: &str, v: Option<RegVal>, Ghost(st): Ghost<ExtractState>)
        requires
            old(self).matches(st),
        ensures
            final(self).matches(ExtractState {
                regs: match v {
                    Some(x) => st.regs.insert(r@, x@),
                    None => st.regs.remove(r@),
                },
                ..st
            }),
    {
        let ghost ov = match &v {
            Some(x) => Some(x@),
            None => None::<ExReg>,
        };
        self.regs.set(owned(r), v);
        let ghost nr = match ov {
            Some(x) => st.regs.insert(r@, x),
            None => st.regs.remove(r@),
        };
        assert forall|k: Seq<char>| #[trigger] ex_reg_of(&self.regs, k) == nr.get(k) by {
            if k != r@ {
                assert(ex_reg_of(&self.regs, k) == ex_reg_of(&old(self).regs, k));
            }
        }
    }

    /// What register `r` holds.
    fn get(&self, r: &str) -> (v: Option<RegVal>)
        requires
            self.regs.wf(),
        ensures
            match v {
                Some(x) => ex_reg_of(&self.regs, r@) == Some(x@),
                None => ex_reg_of(&self.regs, r@) is None,
            },
    {
        match self.regs.get(r) {
            Some(Some(x)) => Some(x.duplicate()),
            _ => None,
        }
    }
}

/// Adds the pending field to `fields` (see [`commit`]).
fn commit_field(fields: &mut Vec<FieldCandidate>, pf: PendingField, frva: u32)
    ensures
        candidates_view(final(fields)@) == commit(candidates_view(old(fields)@), pf@, frva),
{
    let ghost before = candidates_view(fields@);
    match pf.field_type_name {
        Some(raw) => {
            let t = decompose_type(raw.as_str());
            let mut i: usize = 0;
            while i < fields.len()
                invariant
                    i <= fields.len(),
                    before == candidates_view(fields@),
                    forall|k: int| 0 <= k < i ==> before[k].name != pf.name@,
                decreases fields.len() - i,
            {
                if str_eq(fields[i].name.as_str(), pf.name.as_str()) {
                    assert(candidate_names(before)[i as int] == pf.name@);
                    return;
                }
                i = i + 1;
            }
            assert(!candidate_names(before).contains(pf.name@)) by {
                if candidate_names(before).contains(pf.name@) {
                    let k = choose|k: int| 0 <= k < candidate_names(before).len() && candidate_names(before)[k] == pf.name@;
                    assert(before[k].name == pf.name@);
                }
            }
            let required = if t.optional {
                false
            } else {
                match pf.required {
                    Some(b) => b,
                    None => false,
                }
            };
            let c = FieldCandidate {
                name: pf.name,
                field_type: t,
                required,
                owner_type: pf.owner,
                function_rva: frva,
                name_source: owned("string_literal"),
                type_source: pf.source,
                rejection_reason: None,
            };
            fields.push(c);
            assert(candidates_view(fields@) =~= before.push(c@));
        },
        None => {},
    }
}


impl ExtractScan {
    /// The pending field's distance in instructions from `from`, at most 35.
    fn near(&self, from: usize) -> (r: bool)
        ensures
            r == (self.idx - from <= 35),
    {
        if self.idx >= from {
            self.idx - from <= 35
        } else {
            true
        }
    }

    /// Gives the pending field type `t`, when it is near enough.
    fn type_pending(&mut self, t: &String, owner: &Option<String>, source: &str, Ghost(st): Ghost<ExtractState>)
        requires
            old(self).matches(st),
        ensures
            final(self).matches(ExtractState {
                pending: match st.pending {
                    Some(pf) => if st.idx - pf.idx <= 35 {
                        Some(with_type(pf, t@, text_of(*owner), source@, st.idx))
                    } else {
                        Some(pf)
                    },
                    None => None,
                },
                ..st
            }),
    {
        let idx = self.idx;
        let mut p = self.pending.take();
        match p {
            Some(mut pf) => {
                let close = if idx >= pf.insn_idx {
                    idx - pf.insn_idx <= 35
                } else {
                    true
                };
                if close {
                    pf.field_type_name = Some(t.clone());
                    pf.owner = copy_opt_string(owner);
                    assert(text_of(pf.owner) == text_of(*owner));
                    pf.source = owned(source);
                    pf.type_insn_idx = Some(idx);
                }
                self.pending = Some(pf);
            },
            None => {},
        }
    }

    /// Effect of a `lea` (see [`lea_ex`]).
    fn lea(&mut self, pe: &PeImage, rtti: &RttiEngine, frva: u32, insn: &Insn, Ghost(st): Ghost<ExtractState>)
        requires
            old(self).matches(st),
            rtti.wf(),
        ensures
            final(self).matches(lea_ex(pe, rtti, frva, st, insn@)),
    {
        let dest = insn.op0_full_register.as_str();
        if str_eq(insn.op1_kind.as_str(), "Memory") && str_eq(insn.memory_base.as_str(), "RIP") {
            if let Some(t) = target_rva(insn.memory_displacement, pe.image_base) {
                match member_vtable_type_exec(rtti, pe.image_base, insn) {
                    Some(inner) => {
                        let owner: Option<String> = match rtti.smember_owners.get(t) {
                            Some(o) => Some(o.clone()),
                            None => None,
                        };
                        assert(text_of(owner) == text_of(rtti.smember_owners.spec_get(t)));
                        let ghost st1 = ExtractState {
                            regs: st.regs.insert(dest@, ExReg::MemberVtable(inner@, text_of(owner))),
                            ..st
                        };
                        self.put(dest, Some(RegVal::MemberVtable(inner.clone(), copy_opt_string(&owner))), Ghost(st));
                        self.type_pending(&inner, &owner, "member_vtable", Ghost(st1));
                        return;
                    },
                    None => {},
                }
                if rtti.vtable_to_type.contains_key(t) {
                    self.put(dest, None, Ghost(st));
                    return;
                }
                if let Some(name) = pe.read_cstring(t) {
                    if is_valid_field_name(name) {
                        let ghost fields1 = match st.pending {
                            Some(pf) => commit(st.fields, pf, frva),
                            None => st.fields,
                        };
                        if let Some(pf) = self.pending.take() {
                            commit_field(&mut self.fields, pf, frva);
                        }
                        self.pending = Some(PendingField {
                            name: owned(name),
                            insn_idx: self.idx,
                            field_type_name: None,
                            owner: None,
                            source: String::new(),
                            type_insn_idx: None,
                            required: None,
                        });
                        proof {
                            reveal_strlit("");
                        }
                        let ghost st2 = ExtractState {
                            fields: fields1,
                            pending: Some(
                                PendingShape {
                                    name: name@,
                                    idx: st.idx,
                                    field_type_name: None,
                                    owner: None,
                                    source: Seq::empty(),
                                    type_idx: None,
                                    required: None,
                                },
                            ),
                            ..st
                        };
                        assert(self.matches(st2));
                        self.put(dest, Some(RegVal::StringLiteral), Ghost(st2));
                        return;
                    }
                }
            }
        }
        self.put(dest, None, Ghost(st));
    }
}


impl ExtractScan {
    /// Effect of a `mov` (see [`mov_ex`]).
    fn mov(&mut self, insn: &Insn, Ghost(st): Ghost<ExtractState>)
        requires
            old(self).matches(st),
        ensures
            final(self).matches(mov_ex(st, insn@)),
    {
        let small = str_eq(insn.op1_kind.as_str(), "Immediate32") || str_eq(insn.op1_kind.as_str(), "Immediate8");
        if str_eq(insn.op0_kind.as_str(), "Memory") && !str_eq(insn.memory_base.as_str(), "RIP") && !str_eq(
            insn.memory_base.as_str(),
            "None",
        ) {
            if small {
                let imm = insn.immediate32;
                let idx = self.idx;
                let p = self.pending.take();
                match p {
                    Some(mut pf) => {
                        let since = match pf.type_insn_idx {
                            Some(x) => x,
                            None => 0,
                        };
                        let close = if idx >= since {
                            idx - since <= 10
                        } else {
                            true
                        };
                        if (imm == 1 || imm == 2) && pf.field_type_name.is_some() && close {
                            pf.required = Some(imm == 1);
                        }
                        self.pending = Some(pf);
                    },
                    None => {},
                }
            } else if str_eq(insn.op1_kind.as_str(), "Register") && crate::decode::is_gpr64_register(insn.op1_register.as_str()) {
                match self.get(insn.op1_full_register.as_str()) {
                    Some(RegVal::MemberVtable(t, o)) => {
                        if self.pending.is_some() {
                            self.type_pending(&t, &o, "member_vtable", Ghost(st));
                        }
                    },
                    _ => {},
                }
            }
            return;
        }
        if str_eq(insn.op0_kind.as_str(), "Register") {
            let dest = insn.op0_full_register.as_str();
            if str_eq(insn.op1_kind.as_str(), "Register") {
                let v = self.get(insn.op1_full_register.as_str());
                self.put(dest, v, Ghost(st));
            } else if small {
                let imm = insn.immediate32;
                if str_eq(dest, "R9") && (imm == 1 || imm == 2) {
                    self.r9 = Some(imm == 1);
                }
                let ghost st1 = ExtractState { r9: self.r9, ..st };
                self.put(dest, Some(RegVal::Imm), Ghost(st1));
            } else {
                self.put(dest, None, Ghost(st));
            }
        }
    }

    /// Effect of a `xor` or `sub` (see [`xor_sub_ex`]).
    fn xor_sub(&mut self, insn: &Insn, Ghost(st): Ghost<ExtractState>)
        requires
            old(self).matches(st),
        ensures
            final(self).matches(xor_sub_ex(st, insn@)),
    {
        if str_eq(insn.op0_kind.as_str(), "Register") {
            let dest = insn.op0_full_register.as_str();
            if str_eq(insn.op1_kind.as_str(), "Register") && str_eq(dest, insn.op1_full_register.as_str()) {
                self.put(dest, Some(RegVal::Imm), Ghost(st));
            } else {
                self.put(dest, None, Ghost(st));
            }
        }
    }

    /// Forgets the volatile registers.
    fn clobber(&mut self, Ghost(st): Ghost<ExtractState>)
        requires
            old(self).matches(st),
        ensures
            final(self).matches(ExtractState { regs: st.regs.remove_keys(clobbered()), ..st }),
    {
        let ghost s1 = ExtractState { regs: st.regs.remove("RAX"@), ..st };
        self.put("RAX", None, Ghost(st));
        let ghost s2 = ExtractState { regs: s1.regs.remove("RCX"@), ..st };
        self.put("RCX", None, Ghost(s1));
        let ghost s3 = ExtractState { regs: s2.regs.remove("RDX"@), ..st };
        self.put("RDX", None, Ghost(s2));
        let ghost s4 = ExtractState { regs: s3.regs.remove("R8"@), ..st };
        self.put("R8", None, Ghost(s3));
        let ghost s5 = ExtractState { regs: s4.regs.remove("R9"@), ..st };
        self.put("R9", None, Ghost(s4));
        let ghost s6 = ExtractState { regs: s5.regs.remove("R10"@), ..st };
        self.put("R10", None, Ghost(s5));
        self.put("R11", None, Ghost(s6));
        assert(s6.regs.remove("R11"@) =~= st.regs.remove_keys(clobbered()));
    }
}

impl<'a> FieldExtractor<'a> {
    /// Effect of a `call` (see [`call_ex`]).
    fn call(&self, sc: &mut ExtractScan, insn: &Insn, Ghost(st): Ghost<ExtractState>)
        requires
            old(sc).matches(st),
            self.rtti.wf(),
        ensures
            final(sc).matches(call_ex(self.pe, self.rtti, st, insn@)),
    {
        let pe = self.pe;
        let idx = sc.idx;
        let p = sc.pending.take();
        let ghost mid;
        match p {
            Some(mut pf) => {
                if let Some(req) = sc.r9 {
                    pf.required = Some(req);
                }
                let close = if idx >= pf.insn_idx {
                    idx - pf.insn_idx <= 35
                } else {
                    true
                };
                let mut helper_done = false;
                if pf.field_type_name.is_none() && close {
                    if let Some(tr) = target_rva(insn.near_branch, pe.image_base) {
                        if tr != MEMBER_REGISTRATION_RVA {
                            let ghost c0 = cache_view(&sc.cache);
                            let found = self.infer_helper_type(tr, &mut sc.cache, 0);
                            match found {
                                Some(t) => {
                                    pf.field_type_name = Some(t);
                                    pf.owner = None;
                                    pf.source = owned("helper_call");
                                    pf.type_insn_idx = Some(idx);
                                },
                                None => {},
                            }
                            helper_done = true;
                        }
                    }
                }
                sc.pending = Some(pf);
                proof {
                    mid = match st.pending {
                        Some(pf0) => {
                            let pfa = match st.r9 {
                                Some(req) => PendingShape { required: Some(req), ..pf0 },
                                None => pf0,
                            };
                            if pfa.field_type_name is None && st.idx - pfa.idx <= 35 && rva_of(insn@.near_branch, pe.image_base) is Some
                                && rva_of(insn@.near_branch, pe.image_base)->0 != MEMBER_REGISTRATION_RVA {
                                let h = helper_type(pe, self.rtti, rva_of(insn@.near_branch, pe.image_base)->0, st.cache, 0);
                                let pf2 = match h.0 {
                                    Some(t) => with_type(pfa, t, None, helper_source_text(), st.idx),
                                    None => pfa,
                                };
                                ExtractState { pending: Some(pf2), cache: h.1, ..st }
                            } else {
                                ExtractState { pending: Some(pfa), ..st }
                            }
                        },
                        None => st,
                    };
                    reveal_strlit("helper_call");
                }
                assert(sc.matches(mid));
            },
            None => {
                proof {
                    mid = st;
                }
            },
        }
        sc.r9 = None;
        let ghost m2 = ExtractState { r9: None, ..mid };
        sc.clobber(Ghost(m2));
    }
}


impl<'a> FieldExtractor<'a> {
    /// The field candidates the function containing `func_rva` registers
    /// (see [`extracted_candidates`]): each name loaded as a string literal
    /// starts a field, whose type is the member registration vtable loaded
    /// or stored next, or what the helper called next registers, and whose
    /// required flag is the 1 or 2 stored or passed in R9 after.
    pub fn extract_candidates_from_func(&self, func_rva: u32) -> (r: Vec<FieldCandidate>)
        requires
            self.rtti.wf(),
        ensures
            candidates_view(r@) == extracted_candidates(self.pe, self.rtti, func_rva),
    {
        let pe = self.pe;
        let rtti = self.rtti;
        let func = match pe.find_function(func_rva) {
            Some(f) => f,
            None => {
                proof {
                    assert(candidates_view(Seq::<FieldCandidate>::empty()) =~= Seq::<CandidateShape>::empty());
                }
                return Vec::new();
            },
        };
        let frva = func.begin_address;
        let flen = func.len();
        let code = match pe.slice_at_rva(frva, flen as usize) {
            Some(c) => c,
            None => {
                proof {
                    assert(candidates_view(Seq::<FieldCandidate>::empty()) =~= Seq::<CandidateShape>::empty());
                }
                return Vec::new();
            },
        };
        let ins = decode_all(code, crate::pe::code_address(pe.image_base, frva));
        let ghost iv = insns_view(ins@);
        let mut sc = ExtractScan {
            regs: NameMap::new(),
            fields: Vec::new(),
            pending: None,
            r9: None,
            cache: RvaMap::new(),
            idx: 0,
        };
        proof {
            assert forall|k: Seq<char>| #[trigger] ex_reg_of(&sc.regs, k) == initial_extract_state().regs.get(k) by {
                sc.regs.lemma_get_absent(k);
            }
            assert(candidates_view(sc.fields@) =~= Seq::<CandidateShape>::empty());
            assert(cache_view(&sc.cache) =~= Map::<u32, Option<Seq<char>>>::empty()) by {
                assert forall|k: u32| !(#[trigger] cache_view(&sc.cache).contains_key(k)) by {
                    sc.cache.lemma_rva_domain(k);
                }
            }
        }
        let mut i: usize = 0;
        while i < ins.len()
            invariant
                i <= ins.len(),
                iv == insns_view(ins@),
                rtti.wf(),
                pe == self.pe,
                rtti == self.rtti,
                sc.matches(extract_prefix(pe, rtti, frva, iv, i as int)),
                sc.idx == i,
            decreases ins.len() - i,
        {
            let insn = &ins[i];
            assert(iv[i as int] == insn@);
            let ghost st0 = extract_prefix(pe, rtti, frva, iv, i as int);
            sc.idx = sc.idx + 1;
            let ghost st = ExtractState { idx: st0.idx + 1, ..st0 };
            assert(sc.matches(st));
            let m = insn.mnemonic.as_str();
            if str_eq(m, "Lea") {
                sc.lea(pe, rtti, frva, insn, Ghost(st));
            } else if str_eq(m, "Mov") {
                sc.mov(insn, Ghost(st));
            } else if str_eq(m, "Xor") || str_eq(m, "Sub") {
                sc.xor_sub(insn, Ghost(st));
            } else if str_eq(m, "Call") {
                self.call(&mut sc, insn, Ghost(st));
            }
            i = i + 1;
        }
        let ghost fin = extract_prefix(pe, rtti, frva, iv, ins.len() as int);
        let mut fields = sc.fields;
        if let Some(pf) = sc.pending {
            commit_field(&mut fields, pf, frva);
        }
        proof {
            assert(containing_function(pe.pdata@, func_rva) == Some(*func));
            assert(entry_len(*func) == flen);
        }
        fields
    }

    /// The fields the function containing `func_rva` registers: the field
    /// candidates (see [`FieldExtractor::extract_candidates_from_func`])
    /// with their name, type and required flag.
    pub fn extract_from_func(&self, func_rva: u32) -> (r: Vec<ExtractedField>)
        requires
            self.rtti.wf(),
        ensures
            fields_view(r@) == extracted_candidates(self.pe, self.rtti, func_rva).map_values(
                |c: CandidateShape| candidate_field(c),
            ),
            sound_fields(fields_view(r@)),
    {
        proof {
            crate::laws::lemma_extracted_fields(self.pe, self.rtti, func_rva);
        }
        let cands = self.extract_candidates_from_func(func_rva);
        let ghost cv = candidates_view(cands@);
        let mut out: Vec<ExtractedField> = Vec::new();
        let mut i: usize = 0;
        while i < cands.len()
            invariant
                i <= cands.len(),
                cv == candidates_view(cands@),
                fields_view(out@) == cv.take(i as int).map_values(|c: CandidateShape| candidate_field(c)),
            decreases cands.len() - i,
        {
            let ghost before = out@;
            let f = cands[i].duplicate().into_field();
            out.push(f);
            assert(cv[i as int] == cands[i as int]@);
            assert(fields_view(out@) =~= cv.take(i + 1).map_values(|c: CandidateShape| candidate_field(c))) by {
                assert(fields_view(out@) =~= fields_view(before).push(f@));
                assert(cv.take(i + 1) =~= cv.take(i as int).push(cv[i as int]));
            }
            i = i + 1;
        }
        assert(cv.take(cands.len() as int) =~= cv);
        out
    }
}


// ---------------------------------------------------------------------------
// Choosing an initializer
// ---------------------------------------------------------------------------

/// The fields of the function containing `f` (see [`extracted_candidates`]).
pub open spec fn extracted_fields(pe: &PeImage, rtti: &RttiEngine, f: u32) -> Seq<FieldShape> {
    extracted_candidates(pe, rtti, f).map_values(|c: CandidateShape| candidate_field(c))
}

/// Fields as an extraction gives them: no name twice, every name a wire
/// field name (see [`valid_field_name`]), and no field of an optional type
/// required.
pub open spec fn sound_fields(fs: Seq<FieldShape>) -> bool {
    &&& field_names(fs).no_duplicates()
    &&& forall|i: int| 0 <= i < fs.len() ==> valid_field_name((#[trigger] fs[i]).name)
    &&& forall|i: int| 0 <= i < fs.len() ==> (#[trigger] fs[i]).required ==> !fs[i].field_type.optional
}

/// The length of the function containing `f`, or `u32::MAX` when none does.
pub open spec fn length_or_max(pe: &PeImage, f: u32) -> u32 {
    match containing_function(pe.pdata@, f) {
        Some(g) => entry_len(g),
        None => u32::MAX,
    }
}

/// A qualified initializer: not a dispatch function, and it refers to a
/// serializable member.
pub open spec fn qualified_test(pe: &PeImage, rtti: &RttiEngine) -> spec_fn(u32) -> bool {
    |f: u32| !dispatch_like(pe, f) && has_member_refs(pe, rtti, f)
}

/// The best initializer among `eval[k..]`, `best` being the best so far
/// (function, fields, field count): more fields win; among as many, the
/// shorter function; functions without fields never win.
pub open spec fn best_from(pe: &PeImage, rtti: &RttiEngine, eval: Seq<u32>, k: int, best: (u32, Seq<FieldShape>, int)) -> (
    u32,
    Seq<FieldShape>,
    int,
)
    decreases eval.len() - k,
{
    if k < 0 || k >= eval.len() {
        best
    } else {
        let f = eval[k];
        let fields = extracted_fields(pe, rtti, f);
        let next = if fields.len() == 0 {
            best
        } else if fields.len() > best.2 {
            (f, fields, fields.len() as int)
        } else if fields.len() == best.2 && length_or_max(pe, f) < length_or_max(pe, best.0) {
            (f, fields, best.2)
        } else {
            best
        };
        best_from(pe, rtti, eval, k + 1, next)
    }
}

/// The initializer chosen among the functions `list` that load a vtable:
/// the best of the qualified ones, or of all when none qualifies.
pub open spec fn best_initializer(pe: &PeImage, rtti: &RttiEngine, list: Seq<u32>) -> Option<(u32, Seq<FieldShape>)> {
    if list.len() == 0 {
        None
    } else {
        let q = list.filter(qualified_test(pe, rtti));
        let eval = if q.len() > 0 {
            q
        } else {
            list
        };
        let b = best_from(pe, rtti, eval, 0, (eval[0], Seq::empty(), 0));
        Some((b.0, b.1))
    }
}

impl VtableXrefIndex {
    /// The initializer of the vtable at `vtable_rva` that registers the most
    /// fields (see [`best_initializer`]), with its fields.
    pub fn find_best_initializer(&self, vtable_rva: u32, extractor: &FieldExtractor) -> (r: Option<(u32, Vec<ExtractedField>)>)
        requires
            self.vtable_to_funcs.wf(),
            extractor.rtti.wf(),
        ensures
            match self.vtable_to_funcs.spec_get(vtable_rva) {
                Some(l) => match best_initializer(extractor.pe, extractor.rtti, l@) {
                    Some((f, fs)) => r matches Some(x) && x.0 == f && fields_view(x.1@) == fs,
                    None => r is None,
                },
                None => r is None,
            },
    {
        let pe = extractor.pe;
        let rtti = extractor.rtti;
        let funcs = match self.vtable_to_funcs.get(vtable_rva) {
            Some(l) => l,
            None => {
                return None;
            },
        };
        if funcs.len() == 0 {
            return None;
        }
        let ghost pred = qualified_test(pe, rtti);
        let mut qualified: Vec<u32> = Vec::new();
        let mut i: usize = 0;
        while i < funcs.len()
            invariant
                i <= funcs.len(),
                rtti.wf(),
                pred == qualified_test(pe, rtti),
                qualified@ == funcs@.take(i as int).filter(pred),
            decreases funcs.len() - i,
        {
            let f = funcs[i];
            let ghost prev = funcs@.take(i as int);
            assert(funcs@.take(i + 1) =~= prev.push(f));
            proof {
                prev.lemma_filter_push(f, pred);
            }
            if !is_dispatch_function(pe, f) && contains_serializable_member_refs(pe, rtti, f) {
                qualified.push(f);
            }
            i = i + 1;
        }
        assert(funcs@.take(funcs.len() as int) =~= funcs@);
        let eval: &Vec<u32> = if qualified.len() > 0 {
            &qualified
        } else {
            funcs
        };
        let mut best_func = eval[0];
        let mut best_fields: Vec<ExtractedField> = Vec::new();
        let mut best_count: usize = 0;
        let ghost b0 = (eval@[0], Seq::<FieldShape>::empty(), 0int);
        assert(fields_view(best_fields@) =~= Seq::<FieldShape>::empty());
        let mut k: usize = 0;
        while k < eval.len()
            invariant
                k <= eval.len(),
                rtti.wf(),
                pe == extractor.pe,
                rtti == extractor.rtti,
                best_from(pe, rtti, eval@, 0, b0) == best_from(
                    pe,
                    rtti,
                    eval@,
                    k as int,
                    (best_func, fields_view(best_fields@), best_count as int),
                ),
                best_count == best_fields.len(),
            decreases eval.len() - k,
        {
            let f = eval[k];
            let fields = extractor.extract_from_func(f);
            let n = fields.len();
            if n > 0 {
                if n > best_count {
                    best_count = n;
                    best_fields = fields;
                    best_func = f;
                } else if n == best_count {
                    let curr_len = match pe.find_function(f) {
                        Some(g) => g.len(),
                        None => 4294967295u32,
                    };
                    let best_len = match pe.find_function(best_func) {
                        Some(g) => g.len(),
                        None => 4294967295u32,
                    };
                    if curr_len < best_len {
                        best_fields = fields;
                        best_func = f;
                    }
                }
            }
            k = k + 1;
        }
        Some((best_func, best_fields))
    }
}

} // verus!
