//! Selection of the initializer that defines each model, and the fields it
//! registers.
use vstd::prelude::*;
use crate::dumper::{EntryShape, TypeDescriptorEntry, TypeEntryResolver, type_entry_from_resolved};
use crate::names::{NameMap, NameSet};
use crate::extractor::{
    CandidateShape, ExtractedField, FieldCandidate, FieldShape, candidate_field, candidates_view,
    copy_fields, fields_view, field_names,
};
use crate::rtti::{clean_demangled_rtti_name, clean_rtti_name};
use crate::names::key_index;
use crate::text::{
    ascii_lower_seq, chars_of, concat, contains_seq, contains_str, eq_str, ends_with_str,
    find_first, find_last, has_suffix, last_segment, last_segment_chars, lemma_find_first_bounds,
    lemma_find_last_bounds, lower_chars, matches_at, occurs_at, owned, rfind_str, slice_of,
    str_eq, string_of, append, append_str, find_char, hex_text, join_seqs, decimal_text, debug_text,
    debug_opt_string,
};
use crate::type_parser::{DecomposedType, TypeShape};
use crate::extractor::{
    FieldExtractor, VtableXrefIndex, contains_serializable_member_refs, extracted_candidates,
    is_dispatch_function, has_member_refs, dispatch_like,
};
use crate::pe::PeImage;
use crate::rtti::RttiEngine;

verus! {

/// The outcome of resolving one model.
#[derive(Debug, Clone)]
pub struct ResolvedModel {
    pub name: String,
    pub offset: Option<String>,
    pub fields: Vec<ExtractedField>,
    pub warn: Option<String>,
}

impl View for ResolvedModel {
    type V = EntryShape;

    open spec fn view(&self) -> EntryShape {
        EntryShape {
            name: self.name@,
            offset: self.offset.deep_view(),
            fields: fields_view(self.fields@),
            warn: self.warn.deep_view(),
        }
    }
}

/// The last scope segment of `name` is one of the placeholder model names
/// that carry no data.
pub open spec fn is_empty_model_spec(name: Seq<char>) -> bool {
    let kind = last_segment(name);
    kind == "EmptyResponse"@ || kind == "EmptyParameters"@ || kind == "NoParameters"@ || kind
        == "EmptyData"@
}

/// Whether `name` names a placeholder model (`EmptyResponse`,
/// `EmptyParameters`, `NoParameters` or `EmptyData`, in any namespace).
pub fn is_empty_model_type_name(name: &str) -> (r: bool)
    ensures
        r == is_empty_model_spec(name@),
{
    let cs = chars_of(name);
    let kind = last_segment_chars(&cs);
    eq_str(&kind, "EmptyResponse") || eq_str(&kind, "EmptyParameters") || eq_str(
        &kind,
        "NoParameters",
    ) || eq_str(&kind, "EmptyData")
}

// ---------------------------------------------------------------------------
// Whether a field's owner belongs to the model
// ---------------------------------------------------------------------------

/// `name` starts with an ASCII capital letter and ends like a converter,
/// logger, factory or (de)serializer class.
pub open spec fn converter_like_name(name: Seq<char>) -> bool {
    name.len() > 0 && 'A' <= name[0] && name[0] <= 'Z' && (has_suffix(name, "Converter"@)
        || has_suffix(name, "Logger"@) || has_suffix(name, "Factory"@) || has_suffix(
        name,
        "Serializer"@,
    ) || has_suffix(name, "Deserializer"@))
}

/// Whether `name` looks like the name of a converter or logging class rather
/// than of a field.
pub fn looks_like_converter_or_logging_type_name(name: &str) -> (r: bool)
    ensures
        r == converter_like_name(name@),
{
    let cs = chars_of(name);
    if cs.len() == 0 {
        return false;
    }
    let first = cs[0];
    'A' <= first && first <= 'Z' && (ends_with_str(&cs, "Converter") || ends_with_str(&cs, "Logger")
        || ends_with_str(&cs, "Factory") || ends_with_str(&cs, "Serializer") || ends_with_str(
        &cs,
        "Deserializer",
    ))
}

/// Why a candidate's name is not field evidence at all, if it is not: its
/// name came from converter or logging strings, or looks like such a class.
pub open spec fn non_field_reason(c: CandidateShape) -> Option<Seq<char>> {
    let lower = ascii_lower_seq(c.name_source);
    if contains_seq(lower, "converter"@) || contains_seq(lower, "logging"@) {
        Some("field name came from converter/logging string evidence"@)
    } else if converter_like_name(c.name) {
        Some("field name '"@ + c.name + "' looks like converter/logging string evidence"@)
    } else {
        None
    }
}

/// Why a candidate is not field evidence, if it is not (see
/// [`non_field_reason`]).
pub fn non_field_string_rejection(candidate: &FieldCandidate) -> (r: Option<String>)
    ensures
        r.deep_view() == non_field_reason(candidate@),
{
    let src = chars_of(candidate.name_source.as_str());
    let lower = lower_chars(&src);
    if contains_str(&lower, "converter") || contains_str(&lower, "logging") {
        return Some(owned("field name came from converter/logging string evidence"));
    }
    if looks_like_converter_or_logging_type_name(candidate.name.as_str()) {
        let mut m = chars_of("field name '");
        append_str(&mut m, candidate.name.as_str());
        append_str(&mut m, "' looks like converter/logging string evidence");
        return Some(string_of(&m));
    }
    None
}

/// The enclosing scope of a qualified name: the text before its last `::`.
pub open spec fn namespace_parent_spec(name: Seq<char>) -> Option<Seq<char>> {
    match find_last(name, "::"@) {
        Some(p) => Some(name.subrange(0, p)),
        None => None,
    }
}

/// The enclosing scope of a qualified name (`rsplit_once("::")`).
pub fn namespace_parent(name: &str) -> (r: Option<String>)
    ensures
        r.deep_view() == namespace_parent_spec(name@),
{
    let cs = chars_of(name);
    match rfind_str(&cs, "::") {
        Some(p) => {
            proof {
                lemma_find_last_bounds(name@, "::"@);
            }
            let v = slice_of(&cs, 0, p);
            Some(string_of(&v))
        },
        None => None,
    }
}

/// The number of non-overlapping `::` found scanning `s` from index `i`.
pub open spec fn scope_separators_from(s: Seq<char>, i: int) -> nat
    decreases s.len() - i,
{
    if i < 0 || i + 2 > s.len() {
        0
    } else if occurs_at(s, "::"@, i) {
        1 + scope_separators_from(s, i + 2)
    } else {
        scope_separators_from(s, i + 1)
    }
}

/// The number of pieces `s.split("::")` gives.
pub open spec fn scope_piece_count(s: Seq<char>) -> nat {
    scope_separators_from(s, 0) + 1
}

fn scope_pieces(s: &[char]) -> (r: u64)
    ensures
        r == scope_piece_count(s@),
{
    let sep = chars_of("::");
    proof {
        reveal_strlit("::");
    }
    let mut i: usize = 0;
    let mut count: u64 = 0;
    while s.len() >= 2 && i <= s.len() - 2
        invariant
            i <= s.len() + 1,
            sep@ == "::"@,
            2 * count <= i,
            count + scope_separators_from(s@, i as int) == scope_separators_from(s@, 0),
        decreases s.len() + 2 - i,
    {
        if matches_at(s, &sep, i) {
            count = count + 1;
            i = i + 2;
        } else {
            i = i + 1;
        }
    }
    count + 1
}

/// The fields all come from function `func_rva` and are owned by `owner`,
/// and there is at least one.
pub open spec fn coherent_helper(owner: Seq<char>, func_rva: u32, fields: Seq<CandidateShape>) -> bool {
    fields.len() > 0 && forall|i: int| 0 <= i < fields.len() ==> (#[trigger] fields[i]).function_rva
        == func_rva && fields[i].owner_type == Some(owner)
}

/// Whether the fields form one coherent helper registration (see
/// [`coherent_helper`]).
pub fn coherent_helper_fields(owner: &str, func_rva: u32, fields: &Vec<FieldCandidate>) -> (r: bool)
    ensures
        r == coherent_helper(owner@, func_rva, candidates_view(fields@)),
{
    if fields.len() == 0 {
        return false;
    }
    let mut i: usize = 0;
    while i < fields.len()
        invariant
            i <= fields.len(),
            forall|k: int| 0 <= k < i ==> (#[trigger] candidates_view(fields@)[k]).function_rva
                == func_rva && candidates_view(fields@)[k].owner_type == Some(owner@),
        decreases fields.len() - i,
    {
        let f = &fields[i];
        let same_owner = match &f.owner_type {
            Some(o) => str_eq(o.as_str(), owner),
            None => false,
        };
        if f.function_rva != func_rva || !same_owner {
            assert(candidates_view(fields@)[i as int] == fields[i as int]@);
            return false;
        }
        i = i + 1;
    }
    true
}

/// The text of an optional type name, empty when absent.
pub open spec fn text_or_empty(o: Option<Seq<char>>) -> Seq<char> {
    match o {
        Some(s) => s,
        None => seq![],
    }
}

/// `s` names an `Api::OneMe` type and mentions neither `model` nor `owner`.
pub open spec fn foreign_api_text(s: Seq<char>, model: Seq<char>, owner: Seq<char>) -> bool {
    contains_seq(s, "Api::OneMe::"@) && !contains_seq(s, model) && !contains_seq(s, owner)
}

/// One of the type texts of `t` names an `Api::OneMe` type that is neither
/// the model nor the owner.
pub open spec fn helper_api_reference(t: TypeShape, model: Seq<char>, owner: Seq<char>) -> bool {
    foreign_api_text(t.full, model, owner) || foreign_api_text(text_or_empty(t.name), model, owner)
        || foreign_api_text(text_or_empty(t.map_key), model, owner) || foreign_api_text(
        text_or_empty(t.map_value),
        model,
        owner,
    ) || foreign_api_text(text_or_empty(t.polymorphic_base), model, owner)
}

fn foreign_api_text_exec(s: &str, model: &str, owner: &str) -> (r: bool)
    ensures
        r == foreign_api_text(s@, model@, owner@),
{
    let cs = chars_of(s);
    let m = chars_of(model);
    let o = chars_of(owner);
    contains_str(&cs, "Api::OneMe::") && !crate::text::contains(&cs, &m) && !crate::text::contains(&cs, &o)
}

fn opt_text(o: &Option<String>) -> (r: String)
    ensures
        r@ == text_or_empty(o.deep_view()),
{
    match o {
        Some(s) => s.clone(),
        None => {
            proof {
                reveal_strlit("");
            }
            owned("")
        },
    }
}

/// Whether a helper field's type refers to another `Api::OneMe` type (see
/// [`helper_api_reference`]).
pub fn helper_field_type_has_api_reference(field_type: &DecomposedType, model_name: &str, owner: &str) -> (r:
    bool)
    ensures
        r == helper_api_reference(field_type@, model_name@, owner@),
{
    proof {
        reveal_strlit("");
    }
    foreign_api_text_exec(field_type.full.as_str(), model_name, owner) || foreign_api_text_exec(
        opt_text(&field_type.name).as_str(),
        model_name,
        owner,
    ) || foreign_api_text_exec(opt_text(&field_type.map_key).as_str(), model_name, owner)
        || foreign_api_text_exec(opt_text(&field_type.map_value).as_str(), model_name, owner)
        || foreign_api_text_exec(opt_text(&field_type.polymorphic_base).as_str(), model_name, owner)
}

/// `t` refers to the model `m`: as its type name, map key, map value or
/// polymorphic base, or within its full type.
pub open spec fn type_references(t: TypeShape, m: Seq<char>) -> bool {
    t.name == Some(m) || t.map_key == Some(m) || t.map_value == Some(m) || t.polymorphic_base == Some(m)
        || contains_seq(t.full, m)
}

fn opt_is(o: &Option<String>, s: &str) -> (r: bool)
    ensures
        r == (o.deep_view() == Some(s@)),
{
    match o {
        Some(x) => str_eq(x.as_str(), s),
        None => false,
    }
}

/// Whether the type refers to the model (see [`type_references`]).
pub fn field_type_references_model(field_type: &DecomposedType, model_name: &str) -> (r: bool)
    ensures
        r == type_references(field_type@, model_name@),
{
    let full = chars_of(field_type.full.as_str());
    let m = chars_of(model_name);
    opt_is(&field_type.name, model_name) || opt_is(&field_type.map_key, model_name) || opt_is(
        &field_type.map_value,
        model_name,
    ) || opt_is(&field_type.polymorphic_base, model_name) || crate::text::contains(&full, &m)
}

/// Some field owned by the model itself has a type referring to
/// `nested_owner`: the nested owner is a helper of the model.
pub open spec fn nested_helper(model: Seq<char>, nested_owner: Seq<char>, fields: Seq<CandidateShape>) -> bool {
    exists|i: int| 0 <= i < fields.len() && (#[trigger] fields[i]).owner_type == Some(model)
        && type_references(fields[i].field_type, nested_owner)
}

/// Whether the model has a field whose type refers to `nested_owner` (see
/// [`nested_helper`]).
pub fn has_nested_helper_proof(model_name: &str, nested_owner: &str, fields: &Vec<FieldCandidate>) -> (r: bool)
    ensures
        r == nested_helper(model_name@, nested_owner@, candidates_view(fields@)),
{
    let mut i: usize = 0;
    while i < fields.len()
        invariant
            i <= fields.len(),
            forall|k: int| 0 <= k < i ==> !((#[trigger] candidates_view(fields@)[k]).owner_type == Some(
                model_name@,
            ) && type_references(candidates_view(fields@)[k].field_type, nested_owner@)),
        decreases fields.len() - i,
    {
        assert(candidates_view(fields@)[i as int] == fields[i as int]@);
        if opt_is(&fields[i].owner_type, model_name) && field_type_references_model(
            &fields[i].field_type,
            nested_owner,
        ) {
            return true;
        }
        i = i + 1;
    }
    false
}

/// The top-level comma-separated pieces of `inner` from index `i` on, at
/// nesting `depth`, the current piece having started at `start`; a last
/// piece that would be empty is left out.
pub open spec fn template_pieces(inner: Seq<char>, i: int, depth: nat, start: int) -> Seq<Seq<char>>
    decreases inner.len() - i,
{
    if i < 0 || i >= inner.len() {
        if start < inner.len() {
            seq![inner.subrange(start, inner.len() as int)]
        } else {
            seq![]
        }
    } else if inner[i] == '<' {
        template_pieces(inner, i + 1, depth + 1, start)
    } else if inner[i] == '>' {
        template_pieces(inner, i + 1, if depth > 0 { (depth - 1) as nat } else { 0 }, start)
    } else if inner[i] == ',' && depth == 0 {
        seq![inner.subrange(start, i)] + template_pieces(inner, i + 1, depth, i + 1)
    } else {
        template_pieces(inner, i + 1, depth, start)
    }
}

/// The template arguments of `base` (between its first `<` and its last
/// `>`) include one whose cleaned name is `owner`.
pub open spec fn base_template_arg(base: Seq<char>, owner: Seq<char>) -> bool {
    match (find_first(base, "<"@), find_last(base, ">"@)) {
        (Some(a), Some(b)) => b > a && {
            let pieces = template_pieces(base.subrange(a + 1, b), 0, 0, 0);
            exists|k: int| 0 <= k < pieces.len() && clean_rtti_name(#[trigger] pieces[k]) == owner
        },
        _ => false,
    }
}

/// Whether `owner` is a template argument of the base class `base` (a CRTP
/// base; see [`base_template_arg`]).
pub fn base_has_template_argument(base: &str, owner: &str) -> (r: bool)
    ensures
        r == base_template_arg(base@, owner@),
{
    let cs = chars_of(base);
    proof {
        reveal_strlit("<");
        reveal_strlit(">");
        assert("<"@ =~= seq!['<']);
    }
    let start = match find_char(&cs, '<') {
        Some(a) => a,
        None => {
            return false;
        },
    };
    let end = match rfind_str(&cs, ">") {
        Some(b) => b,
        None => {
            return false;
        },
    };
    if end <= start {
        return false;
    }
    proof {
        lemma_find_first_bounds(base@, "<"@);
        lemma_find_last_bounds(base@, ">"@);
    }
    let inner = slice_of(&cs, start + 1, end);
    let ghost iv = inner@;
    assert(iv == base@.subrange(start + 1, end as int));
    let mut depth: usize = 0;
    let mut arg_start: usize = 0;
    let mut i: usize = 0;
    let ghost mut done: Seq<Seq<char>> = seq![];
    while i < inner.len()
        invariant
            i <= inner.len(),
            iv == inner@,
            end > start,
            end <= base@.len(),
            iv == base@.subrange(start + 1, end as int),
            find_first(base@, "<"@) == Some(start as int),
            find_last(base@, ">"@) == Some(end as int),
            arg_start <= i,
            depth <= i,
            template_pieces(iv, 0, 0, 0) == done + template_pieces(iv, i as int, depth as nat, arg_start as int),
            forall|k: int| 0 <= k < done.len() ==> clean_rtti_name(#[trigger] done[k]) != owner@,
        decreases inner.len() - i,
    {
        let c = inner[i];
        if c == '<' {
            depth = depth + 1;
        } else if c == '>' {
            if depth > 0 {
                depth = depth - 1;
            }
        } else if c == ',' && depth == 0 {
            let piece = slice_of(&inner, arg_start, i);
            let cleaned = clean_demangled_rtti_name(string_of(&piece).as_str());
            if str_eq(cleaned.as_str(), owner) {
                proof {
                    let pieces = template_pieces(iv, 0, 0, 0);
                    assert(template_pieces(iv, i as int, 0, arg_start as int)[0] == piece@);
                    assert(pieces[done.len() as int] == piece@);
                    assert(clean_rtti_name(pieces[done.len() as int]) == owner@);
                    assert(iv == base@.subrange(start + 1, end as int));
                }
                return true;
            }
            proof {
                assert(done + template_pieces(iv, i as int, 0, arg_start as int) =~= done.push(piece@)
                    + template_pieces(iv, i + 1, 0, i + 1));
                done = done.push(piece@);
            }
            arg_start = i + 1;
        }
        i = i + 1;
    }
    if arg_start < inner.len() {
        let piece = slice_of(&inner, arg_start, inner.len());
        let cleaned = clean_demangled_rtti_name(string_of(&piece).as_str());
        assert(template_pieces(iv, i as int, depth as nat, arg_start as int) =~= seq![piece@]);
        if str_eq(cleaned.as_str(), owner) {
            proof {
                let pieces = template_pieces(iv, 0, 0, 0);
                assert(pieces[done.len() as int] == piece@);
                assert(clean_rtti_name(pieces[done.len() as int]) == owner@);
                assert(iv == base@.subrange(start + 1, end as int));
            }
            return true;
        }
        assert forall|k: int| 0 <= k < (done + seq![piece@]).len() implies clean_rtti_name(
            #[trigger] (done + seq![piece@])[k],
        ) != owner@ by {
            if k < done.len() {
                assert((done + seq![piece@])[k] == done[k]);
            }
        }
    } else {
        assert(template_pieces(iv, i as int, depth as nat, arg_start as int) =~= Seq::<Seq<char>>::empty());
        assert(done + Seq::<Seq<char>>::empty() =~= done);
    }
    false
}

/// The helper-initializer proof: the function initializes the model, model
/// and owner share an enclosing scope at least four segments deep, the
/// fields are one coherent registration by the owner, and one of them refers
/// to another `Api::OneMe` type.
pub open spec fn helper_init_proof(
    model: Seq<char>,
    owner: Seq<char>,
    func_rva: u32,
    fields: Seq<CandidateShape>,
    initializes: bool,
) -> bool {
    match (namespace_parent_spec(model), namespace_parent_spec(owner)) {
        (Some(mp), Some(op)) => initializes && mp == op && scope_piece_count(mp) >= 4 && coherent_helper(
            owner,
            func_rva,
            fields,
        ) && exists|i: int| 0 <= i < fields.len() && helper_api_reference(
            (#[trigger] fields[i]).field_type,
            model,
            owner,
        ),
        _ => false,
    }
}

fn any_helper_api_reference(fields: &Vec<FieldCandidate>, model_name: &str, owner: &str) -> (r: bool)
    ensures
        r == exists|i: int| 0 <= i < fields.len() && helper_api_reference(
            (#[trigger] candidates_view(fields@)[i]).field_type,
            model_name@,
            owner@,
        ),
{
    let mut i: usize = 0;
    while i < fields.len()
        invariant
            i <= fields.len(),
            forall|k: int| 0 <= k < i ==> !helper_api_reference(
                (#[trigger] candidates_view(fields@)[k]).field_type,
                model_name@,
                owner@,
            ),
        decreases fields.len() - i,
    {
        assert(candidates_view(fields@)[i as int] == fields[i as int]@);
        if helper_field_type_has_api_reference(&fields[i].field_type, model_name, owner) {
            return true;
        }
        i = i + 1;
    }
    false
}

/// Whether the helper-initializer proof holds, given whether the function
/// initializes the model (see [`helper_init_proof`]).
pub fn helper_initializer_proof_given(
    model_name: &str,
    owner: &str,
    func_rva: u32,
    fields: &Vec<FieldCandidate>,
    initializes: bool,
) -> (r: bool)
    ensures
        r == helper_init_proof(model_name@, owner@, func_rva, candidates_view(fields@), initializes),
{
    let model_parent = match namespace_parent(model_name) {
        Some(p) => p,
        None => {
            return false;
        },
    };
    let owner_parent = match namespace_parent(owner) {
        Some(p) => p,
        None => {
            return false;
        },
    };
    let mp = chars_of(model_parent.as_str());
    initializes && str_eq(model_parent.as_str(), owner_parent.as_str()) && scope_pieces(&mp) >= 4
        && coherent_helper_fields(owner, func_rva, fields) && any_helper_api_reference(fields, model_name, owner)
}

/// How a candidate field's owner relates to the model being resolved.
#[derive(Debug, Clone, PartialEq, Eq)]
pub enum OwnerAcceptance {
    /// The model itself registered the field.
    Direct,
    /// A proven base or helper of the model registered it.
    ProvenHelper,
    /// Nothing is known of the owner.
    Unknown,
    /// The field does not belong to the model, for the reason given.
    Mismatch(String),
}

/// The abstract value of an [`OwnerAcceptance`].
pub enum Acceptance {
    Direct,
    ProvenHelper,
    Unknown,
    Mismatch(Seq<char>),
}

impl View for OwnerAcceptance {
    type V = Acceptance;

    open spec fn view(&self) -> Acceptance {
        match self {
            OwnerAcceptance::Direct => Acceptance::Direct,
            OwnerAcceptance::ProvenHelper => Acceptance::ProvenHelper,
            OwnerAcceptance::Unknown => Acceptance::Unknown,
            OwnerAcceptance::Mismatch(r) => Acceptance::Mismatch(r@),
        }
    }
}

/// Some base of the model has `owner` among its template arguments.
pub open spec fn crtp_base(model_bases: Seq<Seq<char>>, owner: Seq<char>) -> bool {
    exists|k: int| 0 <= k < model_bases.len() && base_template_arg(#[trigger] model_bases[k], owner)
}

/// How the candidate's owner relates to the model, given whether RTTI makes
/// the owner a base of the model, the model's bases, and whether the
/// candidate's function initializes the model.
pub open spec fn acceptance_spec(
    model: Seq<char>,
    c: CandidateShape,
    all: Seq<CandidateShape>,
    owner_is_base: bool,
    model_bases: Seq<Seq<char>>,
    initializes: bool,
) -> Acceptance {
    match non_field_reason(c) {
        Some(reason) => Acceptance::Mismatch(reason),
        None => match c.owner_type {
            None => Acceptance::Unknown,
            Some(owner) => if owner == model {
                Acceptance::Direct
            } else if (owner_is_base || crtp_base(model_bases, owner)) && initializes {
                Acceptance::ProvenHelper
            } else if helper_init_proof(model, owner, c.function_rva, all, initializes) {
                Acceptance::ProvenHelper
            } else if nested_helper(model, owner, all) {
                Acceptance::ProvenHelper
            } else {
                Acceptance::Mismatch("owner '"@ + owner + "' does not match model '"@ + model + "'"@)
            },
        },
    }
}

fn any_crtp_base(model_bases: &Vec<String>, owner: &str) -> (r: bool)
    ensures
        r == crtp_base(model_bases.deep_view(), owner@),
{
    let mut i: usize = 0;
    while i < model_bases.len()
        invariant
            i <= model_bases.len(),
            forall|k: int| 0 <= k < i ==> !base_template_arg(#[trigger] model_bases.deep_view()[k], owner@),
        decreases model_bases.len() - i,
    {
        assert(model_bases.deep_view()[i as int] == model_bases[i as int]@);
        if base_has_template_argument(model_bases[i].as_str(), owner) {
            return true;
        }
        i = i + 1;
    }
    false
}

/// How the candidate's owner relates to the model, given the answers of the
/// model-resolution source (see [`acceptance_spec`]).
pub fn owner_acceptance_given(
    model_name: &str,
    candidate: &FieldCandidate,
    all_fields: &Vec<FieldCandidate>,
    owner_is_base: bool,
    model_bases: &Vec<String>,
    initializes: bool,
) -> (r: OwnerAcceptance)
    ensures
        r@ == acceptance_spec(
            model_name@,
            candidate@,
            candidates_view(all_fields@),
            owner_is_base,
            model_bases.deep_view(),
            initializes,
        ),
{
    if let Some(reason) = non_field_string_rejection(candidate) {
        return OwnerAcceptance::Mismatch(reason);
    }
    let owner = match &candidate.owner_type {
        Some(o) => o,
        None => {
            return OwnerAcceptance::Unknown;
        },
    };
    if str_eq(owner.as_str(), model_name) {
        return OwnerAcceptance::Direct;
    }
    if (owner_is_base || any_crtp_base(model_bases, owner.as_str())) && initializes {
        return OwnerAcceptance::ProvenHelper;
    }
    if helper_initializer_proof_given(model_name, owner.as_str(), candidate.function_rva, all_fields, initializes) {
        return OwnerAcceptance::ProvenHelper;
    }
    if has_nested_helper_proof(model_name, owner.as_str(), all_fields) {
        return OwnerAcceptance::ProvenHelper;
    }
    let mut m = chars_of("owner '");
    append_str(&mut m, owner.as_str());
    append_str(&mut m, "' does not match model '");
    append_str(&mut m, model_name);
    append_str(&mut m, "'");
    OwnerAcceptance::Mismatch(string_of(&m))
}

// ---------------------------------------------------------------------------
// Scoring initializer candidates
// ---------------------------------------------------------------------------

/// How well an initializer candidate explains the model: the strength of
/// ownership evidence (3 direct, 2 proven helper, 1 unknown, 0 none), then
/// more accepted fields, then fewer rejected ones.
#[derive(Debug, Clone, Copy, PartialEq, Eq, Structural)]
pub struct CandidateSemanticScore {
    pub owner_rank: u8,
    pub accepted_field_count: usize,
    pub rejected_field_count: usize,
}

/// A candidate initializer after its fields were sorted into accepted and
/// rejected ones.
#[derive(Debug, Clone)]
pub struct EvaluatedCandidate {
    pub function_rva: u32,
    pub function_len: u32,
    pub accepted_fields: Vec<ExtractedField>,
    pub rejected_fields: Vec<FieldCandidate>,
    pub score: CandidateSemanticScore,
}

/// The abstract value of an [`EvaluatedCandidate`].
pub struct EvalShape {
    pub function_rva: u32,
    pub function_len: u32,
    pub accepted: Seq<FieldShape>,
    pub rejected: Seq<CandidateShape>,
    pub score: CandidateSemanticScore,
}

impl View for EvaluatedCandidate {
    type V = EvalShape;

    open spec fn view(&self) -> EvalShape {
        EvalShape {
            function_rva: self.function_rva,
            function_len: self.function_len,
            accepted: fields_view(self.accepted_fields@),
            rejected: candidates_view(self.rejected_fields@),
            score: self.score,
        }
    }
}

/// The state of sorting a candidate's fields.
pub struct EvalState {
    pub accepted: Seq<FieldShape>,
    pub direct: Seq<bool>,
    pub rejected: Seq<CandidateShape>,
    pub directs: nat,
    pub helpers: nat,
    pub unknowns: nat,
}

/// One field sorted: a direct field takes the place of an earlier field of
/// the same name that was not direct; any other accepted field is kept only
/// when its name is new; a mismatched field is rejected with its reason.
pub open spec fn eval_step(st: EvalState, c: CandidateShape, a: Acceptance) -> EvalState {
    let idx = key_index(field_names(st.accepted), c.name);
    match a {
        Acceptance::Direct => if idx >= 0 {
            if !st.direct[idx] {
                EvalState {
                    accepted: st.accepted.update(idx, candidate_field(c)),
                    direct: st.direct.update(idx, true),
                    directs: st.directs + 1,
                    ..st
                }
            } else {
                EvalState { directs: st.directs + 1, ..st }
            }
        } else {
            EvalState {
                accepted: st.accepted.push(candidate_field(c)),
                direct: st.direct.push(true),
                directs: st.directs + 1,
                ..st
            }
        },
        Acceptance::ProvenHelper => if idx >= 0 {
            EvalState { helpers: st.helpers + 1, ..st }
        } else {
            EvalState {
                accepted: st.accepted.push(candidate_field(c)),
                direct: st.direct.push(false),
                helpers: st.helpers + 1,
                ..st
            }
        },
        Acceptance::Unknown => if idx >= 0 {
            EvalState { unknowns: st.unknowns + 1, ..st }
        } else {
            EvalState {
                accepted: st.accepted.push(candidate_field(c)),
                direct: st.direct.push(false),
                unknowns: st.unknowns + 1,
                ..st
            }
        },
        Acceptance::Mismatch(reason) => EvalState {
            rejected: st.rejected.push(CandidateShape { rejection_reason: Some(reason), ..c }),
            ..st
        },
    }
}

/// All fields sorted, in order.
pub open spec fn eval_all(cs: Seq<CandidateShape>, accs: Seq<Acceptance>) -> EvalState
    decreases cs.len(),
{
    if cs.len() == 0 {
        EvalState { accepted: seq![], direct: seq![], rejected: seq![], directs: 0, helpers: 0, unknowns: 0 }
    } else {
        eval_step(eval_all(cs.drop_last(), accs), cs.last(), accs[cs.len() - 1])
    }
}

/// The owner rank of a sorting outcome.
pub open spec fn owner_rank_of(st: EvalState) -> u8 {
    if st.directs > 0 {
        3
    } else if st.helpers > 0 {
        2
    } else if st.unknowns > 0 {
        1
    } else {
        0
    }
}

/// The evaluated candidate for function `rva` of length `len` whose fields
/// `cs` were judged `accs`.
pub open spec fn evaluation(rva: u32, len: u32, cs: Seq<CandidateShape>, accs: Seq<Acceptance>) -> EvalShape {
    let st = eval_all(cs, accs);
    EvalShape {
        function_rva: rva,
        function_len: len,
        accepted: st.accepted,
        rejected: st.rejected,
        score: CandidateSemanticScore {
            owner_rank: owner_rank_of(st),
            accepted_field_count: st.accepted.len() as usize,
            rejected_field_count: st.rejected.len() as usize,
        },
    }
}

fn index_of_field(fields: &Vec<ExtractedField>, name: &str) -> (r: Option<usize>)
    ensures
        r matches Some(i) ==> key_index(field_names(fields_view(fields@)), name@) == i as int && i < fields.len(),
        r is None ==> key_index(field_names(fields_view(fields@)), name@) < 0,
{
    let ghost names = field_names(fields_view(fields@));
    let mut i: usize = fields.len();
    assert(names.take(i as int) =~= names);
    while i > 0
        invariant
            i <= fields.len(),
            names == field_names(fields_view(fields@)),
            key_index(names, name@) == key_index(names.take(i as int), name@),
        decreases i,
    {
        let ghost t = names.take(i as int);
        assert(t.drop_last() =~= names.take(i - 1));
        assert(t.last() == fields[i - 1]@.name);
        if str_eq(fields[i - 1].name.as_str(), name) {
            return Some(i - 1);
        }
        i = i - 1;
    }
    assert(names.take(0) =~= Seq::<Seq<char>>::empty());
    None
}

/// Sorts a candidate's fields by the acceptance found for each and scores
/// the candidate (see [`evaluation`]).
pub fn evaluate_candidate_given(
    function_rva: u32,
    function_len: u32,
    fields: Vec<FieldCandidate>,
    acceptances: Vec<OwnerAcceptance>,
) -> (r: EvaluatedCandidate)
    requires
        acceptances.len() == fields.len(),
    ensures
        r@ == evaluation(
            function_rva,
            function_len,
            candidates_view(fields@),
            acceptances@.map_values(|a: OwnerAcceptance| a@),
        ),
{
    let ghost cs = candidates_view(fields@);
    let ghost accs = acceptances@.map_values(|a: OwnerAcceptance| a@);
    let mut accepted: Vec<ExtractedField> = Vec::new();
    let mut direct: Vec<bool> = Vec::new();
    let mut rejected: Vec<FieldCandidate> = Vec::new();
    let mut directs: usize = 0;
    let mut helpers: usize = 0;
    let mut unknowns: usize = 0;
    let mut i: usize = 0;
    while i < fields.len()
        invariant
            i <= fields.len(),
            acceptances.len() == fields.len(),
            cs == candidates_view(fields@),
            accs == acceptances@.map_values(|a: OwnerAcceptance| a@),
            directs <= i && helpers <= i && unknowns <= i,
            direct.len() == accepted.len(),
            ({
                let st = eval_all(cs.take(i as int), accs);
                &&& fields_view(accepted@) == st.accepted
                &&& direct@ == st.direct
                &&& candidates_view(rejected@) == st.rejected
                &&& directs == st.directs
                &&& helpers == st.helpers
                &&& unknowns == st.unknowns
            }),
        decreases fields.len() - i,
    {
        let ghost st = eval_all(cs.take(i as int), accs);
        assert(cs.take(i + 1).drop_last() =~= cs.take(i as int));
        assert(cs.take(i + 1).last() == fields[i as int]@);
        assert(accs[i as int] == acceptances[i as int]@);
        let c = fields[i].duplicate();
        let found = index_of_field(&accepted, c.name.as_str());
        match &acceptances[i] {
            OwnerAcceptance::Direct => {
                directs = directs + 1;
                match found {
                    Some(idx) => {
                        if !direct[idx] {
                            let ghost before = accepted@;
                            accepted.set(idx, c.into_field());
                            direct.set(idx, true);
                            assert(fields_view(accepted@) =~= fields_view(before).update(idx as int, candidate_field(fields[i as int]@)));
                        }
                    },
                    None => {
                        let ghost before = accepted@;
                        accepted.push(c.into_field());
                        direct.push(true);
                        assert(fields_view(accepted@) =~= fields_view(before).push(candidate_field(fields[i as int]@)));
                    },
                }
            },
            OwnerAcceptance::ProvenHelper => {
                helpers = helpers + 1;
                if found.is_none() {
                    let ghost before = accepted@;
                    accepted.push(c.into_field());
                    direct.push(false);
                    assert(fields_view(accepted@) =~= fields_view(before).push(candidate_field(fields[i as int]@)));
                }
            },
            OwnerAcceptance::Unknown => {
                unknowns = unknowns + 1;
                if found.is_none() {
                    let ghost before = accepted@;
                    accepted.push(c.into_field());
                    direct.push(false);
                    assert(fields_view(accepted@) =~= fields_view(before).push(candidate_field(fields[i as int]@)));
                }
            },
            OwnerAcceptance::Mismatch(reason) => {
                let mut c = c;
                c.rejection_reason = Some(reason.clone());
                let ghost before = rejected@;
                rejected.push(c);
                assert(candidates_view(rejected@) =~= candidates_view(before).push(
                    CandidateShape { rejection_reason: Some(reason@), ..fields[i as int]@ },
                ));
            },
        }
        i = i + 1;
    }
    assert(cs.take(fields.len() as int) =~= cs);
    let owner_rank: u8 = if directs > 0 {
        3
    } else if helpers > 0 {
        2
    } else if unknowns > 0 {
        1
    } else {
        0
    };
    let score = CandidateSemanticScore {
        owner_rank,
        accepted_field_count: accepted.len(),
        rejected_field_count: rejected.len(),
    };
    EvaluatedCandidate { function_rva, function_len, accepted_fields: accepted, rejected_fields: rejected, score }
}

// ---------------------------------------------------------------------------
// Diagnostics
// ---------------------------------------------------------------------------

/// What a diagnostic of the model resolver reports.
#[derive(Debug, Clone, Copy, PartialEq, Eq, Structural)]
pub enum ModelResolverDiagnosticKind {
    RejectedField,
    RejectedInitializerCandidate,
    ConflictingInitializerCandidates,
    ExtractorError,
    NoInitializer,
}

/// A note on how a model was resolved.
#[derive(Debug, Clone, PartialEq, Eq)]
pub struct ModelResolverDiagnostic {
    pub model_name: String,
    pub function_rva: Option<u32>,
    pub kind: ModelResolverDiagnosticKind,
    pub message: String,
}

/// The abstract value of a [`ModelResolverDiagnostic`].
pub struct DiagShape {
    pub model_name: Seq<char>,
    pub function_rva: Option<u32>,
    pub kind: ModelResolverDiagnosticKind,
    pub message: Seq<char>,
}

impl View for ModelResolverDiagnostic {
    type V = DiagShape;

    open spec fn view(&self) -> DiagShape {
        DiagShape {
            model_name: self.model_name@,
            function_rva: self.function_rva,
            kind: self.kind,
            message: self.message@,
        }
    }
}

/// The views of a list of diagnostics.
pub open spec fn diags_view(s: Seq<ModelResolverDiagnostic>) -> Seq<DiagShape> {
    s.map_values(|d: ModelResolverDiagnostic| d@)
}

// ---------------------------------------------------------------------------
// Choosing among candidates
// ---------------------------------------------------------------------------

/// Score `a` is strictly better than `b`.
pub open spec fn score_better(a: CandidateSemanticScore, b: CandidateSemanticScore) -> bool {
    a.owner_rank > b.owner_rank || (a.owner_rank == b.owner_rank && (a.accepted_field_count
        > b.accepted_field_count || (a.accepted_field_count == b.accepted_field_count
        && a.rejected_field_count < b.rejected_field_count)))
}

/// The best score among the candidates (meaningful when there is one).
pub open spec fn max_score(cs: Seq<EvalShape>) -> CandidateSemanticScore
    decreases cs.len(),
{
    if cs.len() <= 1 {
        cs[0].score
    } else {
        let m = max_score(cs.drop_last());
        if score_better(cs.last().score, m) {
            cs.last().score
        } else {
            m
        }
    }
}

proof fn lemma_max_score(cs: Seq<EvalShape>)
    requires
        cs.len() > 0,
    ensures
        exists|k: int| 0 <= k < cs.len() && (#[trigger] cs[k]).score == max_score(cs),
        forall|j: int| 0 <= j < cs.len() ==> !score_better(#[trigger] cs[j].score, max_score(cs)),
    decreases cs.len(),
{
    if cs.len() > 1 {
        let d = cs.drop_last();
        lemma_max_score(d);
        let k = choose|k: int| 0 <= k < d.len() && (#[trigger] d[k]).score == max_score(d);
        assert(cs[k] == d[k]);
        assert(cs[cs.len() - 1] == cs.last());
        assert forall|j: int| 0 <= j < cs.len() implies !score_better(#[trigger] cs[j].score, max_score(cs)) by {
            if j < cs.len() - 1 {
                assert(cs[j] == d[j]);
            }
        }
        if score_better(cs.last().score, max_score(d)) {
            assert(cs[cs.len() - 1].score == max_score(cs));
        } else {
            assert(cs[k].score == max_score(cs));
        }
    } else {
        assert(cs[0].score == max_score(cs));
        assert forall|j: int| 0 <= j < cs.len() implies !score_better(#[trigger] cs[j].score, max_score(cs)) by {
            assert(j == 0);
        }
    }
}

/// The candidates that share the best score, in order.
pub open spec fn top_candidates(cs: Seq<EvalShape>, m: CandidateSemanticScore) -> Seq<EvalShape>
    decreases cs.len(),
{
    if cs.len() == 0 {
        seq![]
    } else if cs.last().score == m {
        top_candidates(cs.drop_last(), m).push(cs.last())
    } else {
        top_candidates(cs.drop_last(), m)
    }
}

/// The name and full type of each field, in order.
pub open spec fn field_signature(fields: Seq<FieldShape>) -> Seq<(Seq<char>, Seq<char>)> {
    fields.map_values(|f: FieldShape| (f.name, f.field_type.full))
}

/// Some candidate after the first accepts a different list of fields.
pub open spec fn conflicting_fields(top: Seq<EvalShape>) -> bool {
    exists|k: int| 1 <= k < top.len() && field_signature((#[trigger] top[k]).accepted) != field_signature(
        top[0].accepted,
    )
}

/// The addresses of the candidates, as `0x`-prefixed hexadecimal.
pub open spec fn candidate_addresses(top: Seq<EvalShape>) -> Seq<Seq<char>> {
    top.map_values(|e: EvalShape| "0x"@ + hex_text(e.function_rva as nat))
}

/// The diagnostic reported when several best candidates disagree.
pub open spec fn tie_diagnostic(model: Seq<char>, top: Seq<EvalShape>) -> DiagShape {
    DiagShape {
        model_name: model,
        function_rva: None,
        kind: ModelResolverDiagnosticKind::ConflictingInitializerCandidates,
        message: "initializer candidates tie after semantic scoring: "@ + join_seqs(
            candidate_addresses(top),
            ", "@,
        ),
    }
}

/// Candidate `i` is the one chosen: none scores better, and among those
/// scoring as well it has the shortest function, then the lowest address,
/// then comes first.
pub open spec fn is_selected(cs: Seq<EvalShape>, i: int) -> bool {
    &&& 0 <= i < cs.len()
    &&& forall|j: int| 0 <= j < cs.len() ==> !score_better(#[trigger] cs[j].score, cs[i].score)
    &&& forall|j: int| 0 <= j < cs.len() && #[trigger] cs[j].score == cs[i].score ==> (cs[i].function_len
        < cs[j].function_len || (cs[i].function_len == cs[j].function_len && (cs[i].function_rva
        < cs[j].function_rva || (cs[i].function_rva == cs[j].function_rva && i <= j))))
}

/// At most one candidate is selected.
pub proof fn lemma_selected_unique(cs: Seq<EvalShape>, i: int, j: int)
    requires
        is_selected(cs, i),
        is_selected(cs, j),
    ensures
        i == j,
{
    assert(!score_better(cs[j].score, cs[i].score));
    assert(!score_better(cs[i].score, cs[j].score));
    assert(cs[i].score == cs[j].score);
}

fn same_signature(a: &Vec<ExtractedField>, b: &Vec<ExtractedField>) -> (r: bool)
    ensures
        r == (field_signature(fields_view(a@)) == field_signature(fields_view(b@))),
{
    let ghost sa = field_signature(fields_view(a@));
    let ghost sb = field_signature(fields_view(b@));
    if a.len() != b.len() {
        assert(sa.len() != sb.len());
        return false;
    }
    let mut i: usize = 0;
    while i < a.len()
        invariant
            i <= a.len(),
            a.len() == b.len(),
            sa == field_signature(fields_view(a@)),
            sb == field_signature(fields_view(b@)),
            forall|k: int| 0 <= k < i ==> sa[k] == sb[k],
        decreases a.len() - i,
    {
        if !str_eq(a[i].name.as_str(), b[i].name.as_str()) || !str_eq(
            a[i].field_type.full.as_str(),
            b[i].field_type.full.as_str(),
        ) {
            assert(sa[i as int] != sb[i as int]);
            return false;
        }
        i = i + 1;
    }
    assert(sa =~= sb);
    true
}

/// Chooses the initializer that defines the model among the evaluated
/// candidates (see [`is_selected`]); when several share the best score but
/// accept different fields, a tie diagnostic is added.
pub fn select_best_candidate(
    model_name: &str,
    candidates: &Vec<EvaluatedCandidate>,
    diagnostics: &mut Vec<ModelResolverDiagnostic>,
) -> (r: Option<usize>)
    ensures
        ({
            let cs = candidates@.map_values(|c: EvaluatedCandidate| c@);
            let top = top_candidates(cs, max_score(cs));
            &&& r is None <==> cs.len() == 0
            &&& r matches Some(i) ==> is_selected(cs, i as int)
            &&& extends(old(diagnostics)@, final(diagnostics)@)
            &&& diags_view(final(diagnostics)@) == (if cs.len() > 0 && top.len() > 1 && conflicting_fields(top) {
                diags_view(old(diagnostics)@).push(tie_diagnostic(model_name@, top))
            } else {
                diags_view(old(diagnostics)@)
            })
        }),
{
    let ghost cs = candidates@.map_values(|c: EvaluatedCandidate| c@);
    let ghost d0 = diagnostics@;
    if candidates.len() == 0 {
        return None;
    }
    // The best score.
    let mut best = candidates[0].score;
    let mut i: usize = 1;
    assert(cs.take(1).drop_last().len() == 0);
    while i < candidates.len()
        invariant
            1 <= i <= candidates.len(),
            cs == candidates@.map_values(|c: EvaluatedCandidate| c@),
            best == max_score(cs.take(i as int)),
        decreases candidates.len() - i,
    {
        let sc = candidates[i].score;
        assert(cs.take(i + 1).drop_last() =~= cs.take(i as int));
        assert(cs.take(i + 1).last() == candidates[i as int]@);
        if sc.owner_rank > best.owner_rank || (sc.owner_rank == best.owner_rank && (sc.accepted_field_count
            > best.accepted_field_count || (sc.accepted_field_count == best.accepted_field_count
            && sc.rejected_field_count < best.rejected_field_count))) {
            best = sc;
        }
        i = i + 1;
    }
    assert(cs.take(candidates.len() as int) =~= cs);
    proof {
        lemma_max_score(cs);
    }
    // The candidates sharing it.
    let mut top: Vec<usize> = Vec::new();
    let mut k: usize = 0;
    while k < candidates.len()
        invariant
            k <= candidates.len(),
            cs == candidates@.map_values(|c: EvaluatedCandidate| c@),
            best == max_score(cs),
            forall|q: int| 0 <= q < top.len() ==> #[trigger] top[q] < candidates.len(),
            top@.map_values(|q: usize| cs[q as int]) == top_candidates(cs.take(k as int), best),
            forall|q: int, w: int| 0 <= q < w < top.len() ==> top[q] < top[w],
            forall|q: int| 0 <= q < top.len() ==> top[q] < k,
            forall|q: int| 0 <= q < top.len() ==> cs[#[trigger] top[q] as int].score == best,
            forall|j: int| 0 <= j < k && (#[trigger] cs[j]).score == best ==> exists|z: int| 0 <= z < top.len()
                && top[z] == j,
        decreases candidates.len() - k,
    {
        assert(cs.take(k + 1).drop_last() =~= cs.take(k as int));
        assert(cs.take(k + 1).last() == candidates[k as int]@);
        let ghost before = top@;
        if candidates[k].score == best {
            top.push(k);
            assert(top@.map_values(|q: usize| cs[q as int]) =~= before.map_values(|q: usize| cs[q as int]).push(cs[k as int]));
            assert(top[before.len() as int] == k);
        }
        assert forall|j: int| 0 <= j < k + 1 && (#[trigger] cs[j]).score == best implies exists|z: int| 0 <= z < top.len()
            && top[z] == j by {
            if j < k {
                let z = choose|z: int| 0 <= z < before.len() && before[z] == j;
                assert(top[z] == j);
            } else {
                assert(cs[j] == candidates[k as int]@);
                assert(top[before.len() as int] == k);
            }
        }
        k = k + 1;
    }
    assert(cs.take(candidates.len() as int) =~= cs);
    let ghost topv = top_candidates(cs, best);
    assert(top.len() >= 1) by {
        let w = choose|w: int| 0 <= w < cs.len() && (#[trigger] cs[w]).score == max_score(cs);
        assert(cs[w].score == best);
    }
    // A tie between different field lists is reported.
    if top.len() > 1 {
        let first = top[0];
        let mut conflict = false;
        let mut q: usize = 1;
        while q < top.len()
            invariant
                1 <= q <= top.len(),
                first == top[0],
                forall|w: int| 0 <= w < top.len() ==> #[trigger] top[w] < candidates.len(),
                topv == top@.map_values(|w: usize| cs[w as int]),
                cs == candidates@.map_values(|c: EvaluatedCandidate| c@),
                conflict == exists|w: int| 1 <= w < q && field_signature((#[trigger] topv[w]).accepted)
                    != field_signature(topv[0].accepted),
            decreases top.len() - q,
        {
            let same = same_signature(&candidates[top[q]].accepted_fields, &candidates[first].accepted_fields);
            if !same {
                conflict = true;
            }
            assert(topv[q as int] == candidates[top[q as int] as int]@);
            assert(topv[0] == candidates[first as int]@);
            q = q + 1;
        }
        if conflict {
            let mut addrs: Vec<Vec<char>> = Vec::new();
            let mut w: usize = 0;
            while w < top.len()
                invariant
                    w <= top.len(),
                    forall|z: int| 0 <= z < top.len() ==> #[trigger] top[z] < candidates.len(),
                    topv == top@.map_values(|z: usize| cs[z as int]),
                    cs == candidates@.map_values(|c: EvaluatedCandidate| c@),
                    addrs.deep_view() == candidate_addresses(topv).take(w as int),
                    addrs.len() == w,
                decreases top.len() - w,
            {
                let h = crate::text::hex_string(candidates[top[w]].function_rva as u64);
                let hv = chars_of(h.as_str());
                let ghost before = addrs.deep_view();
                assert(topv[w as int] == candidates[top[w as int] as int]@);
                assert(candidate_addresses(topv)[w as int] == hv@);
                let ghost bvec = addrs@;
                addrs.push(hv);
                assert forall|z: int| 0 <= z < w + 1 implies addrs.deep_view()[z] == candidate_addresses(topv).take(
                    w + 1,
                )[z] by {
                    if z < w {
                        assert(addrs@[z] == bvec[z]);
                        assert(before[z] == bvec[z].deep_view());
                    } else {
                        assert(addrs@[z].deep_view() =~= addrs@[z]@);
                    }
                }
                assert(addrs.deep_view() =~= candidate_addresses(topv).take(w + 1));
                w = w + 1;
            }
            assert(candidate_addresses(topv).take(top.len() as int) =~= candidate_addresses(topv));
            let sep = chars_of(", ");
            let joined = crate::text::join(&addrs, &sep);
            let mut msg = chars_of("initializer candidates tie after semantic scoring: ");
            append(&mut msg, &joined);
            let ghost before = diagnostics@;
            diagnostics.push(ModelResolverDiagnostic {
                model_name: owned(model_name),
                function_rva: None,
                kind: ModelResolverDiagnosticKind::ConflictingInitializerCandidates,
                message: string_of(&msg),
            });
            assert(diags_view(diagnostics@) =~= diags_view(before).push(tie_diagnostic(model_name@, topv)));
        }
    }
    // The shortest function, then the lowest address, then the first.
    let mut sel = top[0];
    let mut q: usize = 1;
    while q < top.len()
        invariant
            1 <= q <= top.len(),
            forall|z: int| 0 <= z < top.len() ==> #[trigger] top[z] < candidates.len(),
            topv == top@.map_values(|z: usize| cs[z as int]),
            cs == candidates@.map_values(|c: EvaluatedCandidate| c@),
            sel < candidates.len(),
            cs[sel as int].score == best,
            forall|z: int| 0 <= z < top.len() ==> cs[#[trigger] top[z] as int].score == best,
            forall|z: int, w: int| 0 <= z < w < top.len() ==> top[z] < top[w],
            exists|z: int| 0 <= z < q && top[z] == sel,
            forall|z: int| 0 <= z < q ==> {
                let j = #[trigger] top[z] as int;
                cs[sel as int].function_len < cs[j].function_len || (cs[sel as int].function_len
                    == cs[j].function_len && (cs[sel as int].function_rva < cs[j].function_rva || (
                cs[sel as int].function_rva == cs[j].function_rva && sel <= j)))
            },
        decreases top.len() - q,
    {
        let c = top[q];
        let ghost old_sel = sel;
        let ghost zs = choose|z: int| 0 <= z < q && top[z] == sel;
        assert(top[zs] < top[q as int]);
        if candidates[c].function_len < candidates[sel].function_len || (candidates[c].function_len
            == candidates[sel].function_len && candidates[c].function_rva < candidates[sel].function_rva) {
            sel = c;
        }
        assert(exists|z: int| 0 <= z < q + 1 && top[z] == sel) by {
            if sel == c {
                assert(top[q as int] == sel);
            } else {
                assert(top[zs] == sel);
            }
        }
        q = q + 1;
    }
    proof {
        assert forall|j: int| 0 <= j < cs.len() && #[trigger] cs[j].score == cs[sel as int].score implies (
        cs[sel as int].function_len < cs[j].function_len || (cs[sel as int].function_len == cs[j].function_len
            && (cs[sel as int].function_rva < cs[j].function_rva || (cs[sel as int].function_rva
            == cs[j].function_rva && sel <= j)))) by {
            let z = choose|z: int| 0 <= z < top.len() && top[z] == j;
            assert(top[z] as int == j);
        }
    }
    Some(sel)
}

// ---------------------------------------------------------------------------
// Where the answers come from
// ---------------------------------------------------------------------------

/// Where a model resolver learns about types and functions: their vtables,
/// the functions referring to a vtable, and the fields a function registers.
pub trait ModelResolutionSource {
    /// The vtable the source reports for the type called `model_name`.
    spec fn vtable_of(&self, model_name: &str) -> Option<u32>;

    /// The functions the source reports for the vtable at `vtable_rva`
    /// (none where it reports nothing).
    spec fn functions_of(&self, vtable_rva: u32) -> Option<Vec<u32>>;

    /// The vtable of the type called `model_name`.
    fn vtable_rva_for_type(&self, model_name: &str) -> (r: Option<u32>)
        ensures
            r == self.vtable_of(model_name),
    ;

    /// The functions that refer to the vtable at `vtable_rva`.
    fn functions_for_vtable(&self, vtable_rva: u32) -> (r: Vec<u32>)
        ensures
            r@ == funcs_seq(self.functions_of(vtable_rva)),
    ;

    /// The length the source reports for the function at `func_rva`.
    spec fn length_of(&self, func_rva: u32) -> u32;

    /// Whether the source calls the function at `func_rva` a qualified
    /// initializer.
    spec fn qualified_of(&self, func_rva: u32) -> bool;

    /// What extracting the fields of the function at `func_rva` gives: its
    /// field candidates, or an error message.
    spec fn extraction_of(&self, func_rva: u32) -> Result<Vec<FieldCandidate>, String>;

    /// The length of the function at `func_rva`.
    fn function_len(&self, func_rva: u32) -> (r: u32)
        ensures
            r == self.length_of(func_rva),
    ;

    /// Whether the function at `func_rva` looks like a real initializer.
    fn is_qualified_initializer(&self, func_rva: u32) -> (r: bool)
        ensures
            r == self.qualified_of(func_rva),
    ;

    /// The field candidates the function at `func_rva` registers (see
    /// [`ModelResolutionSource::extraction_of`]). Extracting changes none of
    /// the source's answers.
    fn extract_fields(&mut self, func_rva: u32) -> (r: Result<Vec<FieldCandidate>, String>)
        ensures
            extraction_view(r) == extraction_view(old(self).extraction_of(func_rva)),
            forall|n: &str| #[trigger] final(self).vtable_of(n) == old(self).vtable_of(n),
            forall|v: u32| #[trigger] final(self).functions_of(v) == old(self).functions_of(v),
            forall|g: u32| #[trigger] final(self).length_of(g) == old(self).length_of(g),
            forall|g: u32| #[trigger] final(self).qualified_of(g) == old(self).qualified_of(g),
            forall|g: u32| #[trigger] final(self).extraction_of(g) == old(self).extraction_of(g),
            forall|o: &str, m: &str| #[trigger] final(self).base_of(o, m) == old(self).base_of(o, m),
            forall|m: &str| #[trigger] final(self).bases_listed(m).deep_view() == old(self).bases_listed(m).deep_view(),
    ;

    /// Whether the function at `func_rva` refers to the vtable of the model.
    fn function_initializes_model(&self, model_name: &str, func_rva: u32) -> (r: bool)
        ensures
            r == (match self.vtable_of(model_name) {
                Some(v) => funcs_seq(self.functions_of(v)).contains(func_rva),
                None => false,
            }),
    {
        match self.vtable_rva_for_type(model_name) {
            Some(vtable_rva) => {
                let funcs = self.functions_for_vtable(vtable_rva);
                let mut i: usize = 0;
                while i < funcs.len()
                    invariant
                        i <= funcs.len(),
                        self.vtable_of(model_name) == Some(vtable_rva),
                        funcs@ == funcs_seq(self.functions_of(vtable_rva)),
                        forall|k: int| 0 <= k < i ==> funcs@[k] != func_rva,
                    decreases funcs.len() - i,
                {
                    if funcs[i] == func_rva {
                        assert(funcs@[i as int] == func_rva);
                        return true;
                    }
                    i = i + 1;
                }
                false
            },
            None => false,
        }
    }

    /// Whether the source calls the type `owner_type` a base class of the
    /// model.
    spec fn base_of(&self, owner_type: &str, model_name: &str) -> bool;

    /// The base classes the source lists for the model.
    spec fn bases_listed(&self, model_name: &str) -> Vec<String>;

    /// Whether RTTI makes `owner_type` a base class of the model.
    fn owner_is_base_of_model(&self, owner_type: &str, model_name: &str) -> (r: bool)
        ensures
            r == self.base_of(owner_type, model_name),
    ;

    /// The base classes of the model.
    fn base_models_of(&self, model_name: &str) -> (r: Vec<String>)
        ensures
            r.deep_view() == self.bases_listed(model_name).deep_view(),
    ;
}

/// Whether the function `f` refers to the vtable `source` reports for the
/// model called `model_name`.
pub open spec fn initializes_answer<S: ModelResolutionSource>(source: S, model_name: &str, f: u32) -> bool {
    match source.vtable_of(model_name) {
        Some(v) => funcs_seq(source.functions_of(v)).contains(f),
        None => false,
    }
}

/// An extraction's outcome as abstract values.
pub open spec fn extraction_view(r: Result<Vec<FieldCandidate>, String>) -> Result<Seq<CandidateShape>, Seq<char>> {
    match r {
        Ok(v) => Ok(candidates_view(v@)),
        Err(e) => Err(e@),
    }
}

/// Two sources give the same answers to every question the resolver asks
/// that has a stated answer.
pub open spec fn same_answers<S: ModelResolutionSource>(a: S, b: S) -> bool {
    &&& forall|n: &str| #[trigger] b.vtable_of(n) == a.vtable_of(n)
    &&& forall|v: u32| #[trigger] b.functions_of(v) == a.functions_of(v)
    &&& forall|g: u32| #[trigger] b.length_of(g) == a.length_of(g)
    &&& forall|g: u32| #[trigger] b.qualified_of(g) == a.qualified_of(g)
    &&& forall|g: u32| #[trigger] b.extraction_of(g) == a.extraction_of(g)
    &&& forall|o: &str, m: &str| #[trigger] b.base_of(o, m) == a.base_of(o, m)
    &&& forall|m: &str| #[trigger] b.bases_listed(m).deep_view() == a.bases_listed(m).deep_view()
}

/// The functions a source reported, as a sequence.
pub open spec fn funcs_seq(o: Option<Vec<u32>>) -> Seq<u32> {
    match o {
        Some(l) => l@,
        None => Seq::empty(),
    }
}

/// The model-resolution source of an image: RTTI for vtables and the class
/// hierarchy, the vtable cross-reference index for initializers, and the
/// field extractor for their fields.
pub struct PeModelResolutionSource<'a> {
    extractor: FieldExtractor<'a>,
    xref_index: VtableXrefIndex,
}

impl<'a> PeModelResolutionSource<'a> {
    /// The RTTI maps and the index are well formed.
    #[verifier::type_invariant]
    spec fn source_ok(&self) -> bool {
        self.extractor.rtti.wf() && self.xref_index.vtable_to_funcs.wf()
    }

    /// The image the source reads.
    pub closed spec fn image(&self) -> &'a PeImage<'a> {
        self.extractor.pe
    }

    /// The RTTI the source reads.
    pub closed spec fn engine(&self) -> &'a RttiEngine {
        self.extractor.rtti
    }

    /// The vtable cross-reference index.
    pub closed spec fn index(&self) -> &VtableXrefIndex {
        &self.xref_index
    }

    /// The source of an image with its RTTI: the cross-reference index is
    /// built from the image's code.
    pub fn new(pe: &'a PeImage<'a>, rtti: &'a RttiEngine) -> (r: PeModelResolutionSource<'a>)
        requires
            rtti.wf(),
        ensures
            r.image() == pe,
            r.engine() == rtti,
            match crate::extractor::text_code(pe) {
                Some(ins) => crate::extractor::xrefs_hold(pe, rtti, &r.index().vtable_to_funcs, ins, ins.len() as int),
                None => forall|v: u32| #[trigger] r.index().vtable_to_funcs.spec_get(v) is None,
            },
    {
        let xref_index = VtableXrefIndex::build(pe, rtti);
        PeModelResolutionSource { extractor: FieldExtractor::new(pe, rtti), xref_index }
    }
}

impl<'a> ModelResolutionSource for PeModelResolutionSource<'a> {
    open spec fn vtable_of(&self, model_name: &str) -> Option<u32> {
        self.engine().type_to_vtable.spec_get(model_name@)
    }

    open spec fn functions_of(&self, vtable_rva: u32) -> Option<Vec<u32>> {
        self.index().vtable_to_funcs.spec_get(vtable_rva)
    }

    open spec fn length_of(&self, func_rva: u32) -> u32 {
        crate::extractor::length_or_max(self.image(), func_rva)
    }

    open spec fn qualified_of(&self, func_rva: u32) -> bool {
        !dispatch_like(self.image(), func_rva) && has_member_refs(self.image(), self.engine(), func_rva)
    }

    open spec fn base_of(&self, owner_type: &str, model_name: &str) -> bool {
        crate::rtti::derived_in(self.engine().hierarchy.entries(), owner_type@) matches Some(d) && d.contains(
            model_name@,
        )
    }

    open spec fn bases_listed(&self, model_name: &str) -> Vec<String> {
        choose|v: Vec<String>| v.deep_view() == crate::rtti::bases_in(self.engine().hierarchy.entries(), model_name@)
    }

    open spec fn extraction_of(&self, func_rva: u32) -> Result<Vec<FieldCandidate>, String> {
        Ok(
            choose|v: Vec<FieldCandidate>|
                candidates_view(v@) == extracted_candidates(self.image(), self.engine(), func_rva),
        )
    }

    fn vtable_rva_for_type(&self, model_name: &str) -> (r: Option<u32>)
        ensures
            r == self.engine().type_to_vtable.spec_get(model_name@),
    {
        proof {
            use_type_invariant(self);
        }
        match self.extractor.rtti.type_to_vtable.get(model_name) {
            Some(v) => Some(*v),
            None => None,
        }
    }

    fn functions_for_vtable(&self, vtable_rva: u32) -> (r: Vec<u32>)
        ensures
            r@ == match self.index().vtable_to_funcs.spec_get(vtable_rva) {
                Some(l) => l@,
                None => Seq::<u32>::empty(),
            },
    {
        proof {
            use_type_invariant(self);
        }
        match self.xref_index.vtable_to_funcs.get(vtable_rva) {
            Some(l) => l.clone(),
            None => Vec::new(),
        }
    }

    fn function_len(&self, func_rva: u32) -> (r: u32)
        ensures
            r == crate::extractor::length_or_max(self.image(), func_rva),
    {
        match self.extractor.pe.find_function(func_rva) {
            Some(f) => f.len(),
            None => 4294967295u32,
        }
    }

    fn is_qualified_initializer(&self, func_rva: u32) -> (r: bool)
        ensures
            r == (!dispatch_like(self.image(), func_rva) && has_member_refs(
                self.image(),
                self.engine(),
                func_rva,
            )),
    {
        proof {
            use_type_invariant(self);
        }
        !is_dispatch_function(self.extractor.pe, func_rva) && contains_serializable_member_refs(
            self.extractor.pe,
            self.extractor.rtti,
            func_rva,
        )
    }

    fn extract_fields(&mut self, func_rva: u32) -> (r: Result<Vec<FieldCandidate>, String>)
        ensures
            *final(self) == *old(self),
            (r matches Ok(v) && candidates_view(v@) == extracted_candidates(
                old(self).image(),
                old(self).engine(),
                func_rva,
            )),
    {
        proof {
            use_type_invariant(&*self);
        }
        let v = self.extractor.extract_candidates_from_func(func_rva);
        proof {
            let w = choose|w: Vec<FieldCandidate>| candidates_view(w@) == extracted_candidates(
                self.image(),
                self.engine(),
                func_rva,
            );
            assert(candidates_view(w@) == candidates_view(v@));
        }
        Ok(v)
    }

    fn owner_is_base_of_model(&self, owner_type: &str, model_name: &str) -> (r: bool) {
        self.extractor.rtti.hierarchy.is_base_of(owner_type, model_name)
    }

    fn base_models_of(&self, model_name: &str) -> (r: Vec<String>) {
        let r = self.extractor.rtti.hierarchy.bases_of(model_name);
        proof {
            let w = choose|w: Vec<String>| w.deep_view() == crate::rtti::bases_in(
                self.engine().hierarchy.entries(),
                model_name@,
            );
            assert(w.deep_view() == r.deep_view());
        }
        r
    }
}

/// `a` is how the candidate's owner relates to the model called
/// `model_name` by the answers of `source` (see [`acceptance_spec`]):
/// whether it calls the owner a base class of the model, the bases it lists
/// for the model, and whether the candidate's function refers to the
/// model's vtable.
pub open spec fn source_acceptance<S: ModelResolutionSource>(
    source: S,
    model_name: &str,
    c: CandidateShape,
    all: Seq<CandidateShape>,
    a: Acceptance,
) -> bool {
    exists|ob: bool|
        #![trigger acceptance_spec(model_name@, c, all, ob, source.bases_listed(model_name).deep_view(), initializes_answer(source, model_name, c.function_rva))]
        {
            &&& (c.owner_type matches Some(o) ==> exists|w: &str| w@ == o && ob == #[trigger] source.base_of(w, model_name))
            &&& a == acceptance_spec(
                model_name@,
                c,
                all,
                ob,
                source.bases_listed(model_name).deep_view(),
                initializes_answer(source, model_name, c.function_rva),
            )
        }
}

proof fn lemma_acceptance_same<S: ModelResolutionSource>(
    a: S,
    b: S,
    model_name: &str,
    c: CandidateShape,
    all: Seq<CandidateShape>,
    x: Acceptance,
)
    requires
        same_answers(a, b) || same_answers(b, a),
        source_acceptance(a, model_name, c, all, x),
    ensures
        source_acceptance(b, model_name, c, all, x),
{
    let ob = choose|ob: bool| {
        &&& (c.owner_type matches Some(o) ==> exists|w: &str| w@ == o && ob == #[trigger] a.base_of(w, model_name))
        &&& x == acceptance_spec(
            model_name@,
            c,
            all,
            ob,
            a.bases_listed(model_name).deep_view(),
            initializes_answer(a, model_name, c.function_rva),
        )
    };
    assert(b.bases_listed(model_name).deep_view() == a.bases_listed(model_name).deep_view());
    assert(b.vtable_of(model_name) == a.vtable_of(model_name));
    if let Some(v) = a.vtable_of(model_name) {
        assert(b.functions_of(v) == a.functions_of(v));
    }
    assert(initializes_answer(b, model_name, c.function_rva) == initializes_answer(a, model_name, c.function_rva));
    if let Some(o) = c.owner_type {
        let w = choose|w: &str| w@ == o && ob == #[trigger] a.base_of(w, model_name);
        assert(b.base_of(w, model_name) == a.base_of(w, model_name));
    }
}

/// How the candidate's owner relates to the model, asking the source what
/// RTTI says of the owner and the model's bases and whether the function
/// initializes the model (see [`source_acceptance`]).
pub fn owner_acceptance<S: ModelResolutionSource>(
    source: &S,
    model_name: &str,
    candidate: &FieldCandidate,
    all_fields: &Vec<FieldCandidate>,
) -> (r: OwnerAcceptance)
    ensures
        source_acceptance(*source, model_name, candidate@, candidates_view(all_fields@), r@),
{
    let mut bases: Vec<String> = Vec::new();
    let mut owner_is_base = false;
    let mut initializes = false;
    let ghost mut witness: &str = model_name;
    let rejected = non_field_string_rejection(candidate).is_some();
    if let Some(owner) = &candidate.owner_type {
        let owner_str = owner.as_str();
        proof {
            witness = owner_str;
        }
        if !rejected && !str_eq(owner_str, model_name) {
            owner_is_base = source.owner_is_base_of_model(owner_str, model_name);
            if !owner_is_base {
                bases = source.base_models_of(model_name);
            }
            let needs = owner_is_base || any_crtp_base(&bases, owner_str) || (namespace_parent(
                model_name,
            ).is_some() && namespace_parent(owner_str).is_some());
            if needs {
                initializes = source.function_initializes_model(model_name, candidate.function_rva);
            }
        }
    }
    let r = owner_acceptance_given(model_name, candidate, all_fields, owner_is_base, &bases, initializes);
    proof {
        let c = candidate@;
        let all = candidates_view(all_fields@);
        let bl = source.bases_listed(model_name).deep_view();
        let ia = initializes_answer(*source, model_name, c.function_rva);
        let ob = match c.owner_type {
            Some(_) => source.base_of(witness, model_name),
            None => false,
        };
        assert(r@ == acceptance_spec(model_name@, c, all, owner_is_base, bases.deep_view(), initializes));
        assert(r@ == acceptance_spec(model_name@, c, all, ob, bl, ia));
        if let Some(o) = c.owner_type {
            assert(witness@ == o && ob == source.base_of(witness, model_name));
        }
    }
    r
}

/// Sorts a candidate's fields by how their owners relate to the model and
/// scores it: the outcome is [`evaluation`] for the acceptances the
/// source's answers give (see [`source_acceptance`]).
pub fn evaluate_candidate<S: ModelResolutionSource>(
    source: &S,
    model_name: &str,
    function_rva: u32,
    function_len: u32,
    fields: Vec<FieldCandidate>,
) -> (r: EvaluatedCandidate)
    ensures
        exists|accs: Seq<Acceptance>| {
            &&& accs.len() == fields.len()
            &&& forall|k: int| 0 <= k < accs.len() ==> source_acceptance(
                *source,
                model_name,
                #[trigger] fields@[k]@,
                candidates_view(fields@),
                accs[k],
            )
            &&& r@ == evaluation(function_rva, function_len, candidates_view(fields@), accs)
        },
{
    let mut accs: Vec<OwnerAcceptance> = Vec::new();
    let mut i: usize = 0;
    while i < fields.len()
        invariant
            i <= fields.len(),
            accs.len() == i,
            forall|k: int| 0 <= k < i ==> source_acceptance(
                *source,
                model_name,
                #[trigger] fields@[k]@,
                candidates_view(fields@),
                accs@[k]@,
            ),
        decreases fields.len() - i,
    {
        let a = owner_acceptance(source, model_name, &fields[i], &fields);
        accs.push(a);
        i = i + 1;
    }
    let ghost av = accs@.map_values(|a: OwnerAcceptance| a@);
    let ghost fv = fields@;
    assert forall|k: int| 0 <= k < av.len() implies source_acceptance(
        *source,
        model_name,
        #[trigger] fv[k]@,
        candidates_view(fv),
        av[k],
    ) by {
        assert(av[k] == accs@[k]@);
    }
    let r = evaluate_candidate_given(function_rva, function_len, fields, accs);
    assert(av.len() == fv.len());
    r
}

/// The warning for a model found without data: none for polymorphic
/// wrappers, else `no data found`.
pub open spec fn no_data_warn(name: Seq<char>) -> Option<Seq<char>> {
    if contains_seq(name, "Polymorphic"@) {
        None
    } else {
        Some("no data found"@)
    }
}

/// The warning for a model found without data (see [`no_data_warn`]).
pub fn warn_for_no_data(name: &str) -> (r: Option<String>)
    ensures
        r.deep_view() == no_data_warn(name@),
{
    let cs = chars_of(name);
    if contains_str(&cs, "Polymorphic") {
        None
    } else {
        Some(owned("no data found"))
    }
}

/// A model resolved without fields.
pub fn no_data_model(name: &str, offset: Option<String>, warn: Option<String>) -> (r: ResolvedModel)
    ensures
        r@ == (EntryShape { name: name@, offset: offset.deep_view(), fields: seq![], warn: warn.deep_view() }),
{
    let r = ResolvedModel { name: owned(name), offset, fields: Vec::new(), warn };
    assert(fields_view(r.fields@) =~= Seq::<FieldShape>::empty());
    r
}

/// The resolution of `name` by the initializer at `rva` registering
/// `fields`: the initializer's address in hexadecimal and its fields; with
/// no fields it carries the no-data warning unless a base model has fields.
pub open spec fn chosen_resolution(name: Seq<char>, rva: u32, fields: Seq<FieldShape>, base_has_fields: bool) -> EntryShape {
    EntryShape {
        name,
        offset: Some("0x"@ + hex_text(rva as nat)),
        fields,
        warn: if fields.len() == 0 && !base_has_fields {
            no_data_warn(name)
        } else {
            None
        },
    }
}

/// The resolution of `name` by the chosen initializer (see
/// [`chosen_resolution`]); `base_has_fields` is read only when there are
/// no fields.
pub fn resolution_from_choice(name: &str, rva: u32, fields: Vec<ExtractedField>, base_has_fields: bool) -> (r:
    ResolvedModel)
    ensures
        r@ == chosen_resolution(name@, rva, fields_view(fields@), base_has_fields),
        resolution_ok(name@, r@),
{
    let warn = if fields.len() == 0 && !base_has_fields {
        warn_for_no_data(name)
    } else {
        None
    };
    let offset = crate::text::hex_string(rva as u64);
    let r = ResolvedModel { name: owned(name), offset: Some(offset), warn, fields };
    assert(r.offset.deep_view() matches Some(o) && o == "0x"@ + hex_text(rva as nat));
    r
}

/// `b` begins with all of `a`.
pub open spec fn extends<T>(a: Seq<T>, b: Seq<T>) -> bool {
    b.len() >= a.len() && forall|i: int| 0 <= i < a.len() ==> #[trigger] b[i] == a[i]
}

/// What holds of every resolution of `name`: it is named `name`; without an
/// initializer it has no fields; an initializer is given by its address in
/// hexadecimal; a model with fields has no warning; and the only warning is
/// the no-data one.
pub open spec fn resolution_ok(name: Seq<char>, r: EntryShape) -> bool {
    &&& r.name == name
    &&& r.offset is None ==> r.fields.len() == 0
    &&& r.offset matches Some(o) ==> exists|rva: u32| o == "0x"@ + hex_text(rva as nat)
    &&& r.fields.len() > 0 ==> r.warn is None
    &&& r.warn is Some ==> r.warn == no_data_warn(name)
}

/// One resolution of a model from its initializers: the source's answer,
/// for each function of the vtable, to whether it is a qualified
/// initializer; the functions whose fields were extracted, in order; the candidates evaluated from those
/// whose extraction succeeded, in order; and whether a base model was found
/// with fields.
pub struct TrialShape {
    pub model: Seq<char>,
    pub qualified: Seq<bool>,
    pub extracted: Seq<u32>,
    pub candidates: Seq<EvalShape>,
    pub base_has_fields: bool,
}

/// The resolution `r` that the trial `t` gives for `name`: with no
/// candidate, no data and the no-data warning; else the selected candidate
/// (see [`is_selected`]) with its address and its accepted fields.
pub open spec fn trial_resolution(name: Seq<char>, t: TrialShape, r: EntryShape) -> bool {
    if t.candidates.len() == 0 {
        r == (EntryShape { name, offset: None, fields: seq![], warn: no_data_warn(name) })
    } else {
        exists|i: int|
            is_selected(t.candidates, i) && r == chosen_resolution(
                name,
                #[trigger] t.candidates[i].function_rva,
                t.candidates[i].accepted,
                t.base_has_fields,
            )
    }
}

/// The functions of `fs` whose flag is set, in order.
pub open spec fn flagged(fs: Seq<u32>, flags: Seq<bool>) -> Seq<u32>
    decreases fs.len(),
{
    if fs.len() == 0 {
        seq![]
    } else if flags[fs.len() - 1] {
        flagged(fs.drop_last(), flags).push(fs.last())
    } else {
        flagged(fs.drop_last(), flags)
    }
}

/// The functions whose fields are extracted: the qualified ones, or all of
/// them when none is.
pub open spec fn functions_to_extract(fs: Seq<u32>, flags: Seq<bool>) -> Seq<u32> {
    if flagged(fs, flags).len() > 0 {
        flagged(fs, flags)
    } else {
        fs
    }
}

proof fn lemma_flagged_members(fs: Seq<u32>, flags: Seq<bool>)
    ensures
        forall|k: int| 0 <= k < flagged(fs, flags).len() ==> fs.contains(#[trigger] flagged(fs, flags)[k]),
    decreases fs.len(),
{
    if fs.len() > 0 {
        lemma_flagged_members(fs.drop_last(), flags);
        let r = flagged(fs, flags);
        let p = flagged(fs.drop_last(), flags);
        assert forall|k: int| 0 <= k < r.len() implies fs.contains(#[trigger] r[k]) by {
            if k < p.len() {
                assert(r[k] == p[k]);
                let w = choose|w: int| 0 <= w < fs.drop_last().len() && fs.drop_last()[w] == p[k];
                assert(fs[w] == p[k]);
            } else {
                assert(r[k] == fs[fs.len() - 1]);
            }
        }
    }
}

/// The functions of `funcs` that `source` calls qualified initializers,
/// with its answers.
fn qualified_functions<S: ModelResolutionSource>(source: &S, funcs: &Vec<u32>) -> (r: (Vec<u32>, Ghost<Seq<bool>>))
    ensures
        r.1@ == funcs@.map_values(|f: u32| source.qualified_of(f)),
        r.0@ == flagged(funcs@, r.1@),
{
    let ghost fs = funcs@;
    let ghost mut answers: Seq<bool> = Seq::empty();
    let mut qualified: Vec<u32> = Vec::new();
    let mut i: usize = 0;
    while i < funcs.len()
        invariant
            i <= funcs.len(),
            fs == funcs@,
            answers.len() == i,
            answers == fs.take(i as int).map_values(|f: u32| source.qualified_of(f)),
            qualified@ == flagged(fs.take(i as int), answers),
        decreases funcs.len() - i,
    {
        let q = source.is_qualified_initializer(funcs[i]);
        proof {
            let old_answers = answers;
            answers = answers.push(q);
            lemma_flagged_prefix(fs.take(i as int), answers, old_answers);
            assert(fs.take(i + 1).drop_last() =~= fs.take(i as int));
            assert(fs.take(i + 1).last() == fs[i as int]);
            assert(answers[i as int] == q);
            assert(answers =~= fs.take(i + 1).map_values(|f: u32| source.qualified_of(f)));
        }
        if q {
            qualified.push(funcs[i]);
        }
        i = i + 1;
    }
    assert(fs.take(fs.len() as int) =~= fs);
    assert(answers =~= fs.map_values(|f: u32| source.qualified_of(f)));
    (qualified, Ghost(answers))
}

proof fn lemma_flagged_prefix(fs: Seq<u32>, a: Seq<bool>, b: Seq<bool>)
    requires
        fs.len() <= a.len(),
        fs.len() <= b.len(),
        forall|k: int| 0 <= k < fs.len() ==> a[k] == b[k],
    ensures
        flagged(fs, a) == flagged(fs, b),
    decreases fs.len(),
{
    if fs.len() > 0 {
        lemma_flagged_prefix(fs.drop_last(), a, b);
    }
}

/// `diags` report each field a candidate of the trial `t` rejected, each
/// candidate that lost to the selected one (see
/// [`losing_candidate_message`]), and, when the best candidates
/// disagree on their fields, the tie (see [`tie_diagnostic`]).
pub open spec fn losers_reported(name: Seq<char>, t: TrialShape, diags: Seq<ModelResolverDiagnostic>) -> bool {
    &&& rejections_reported(name, t.candidates, diags)
    &&& ({
        let top = top_candidates(t.candidates, max_score(t.candidates));
        t.candidates.len() > 0 && top.len() > 1 && conflicting_fields(top) ==> exists|p: int|
            0 <= p < diags.len() && (#[trigger] diags[p])@ == tie_diagnostic(name, top)
    })
    &&& forall|i: int, k: int|
        #![trigger is_selected(t.candidates, i), t.candidates[k]]
        is_selected(t.candidates, i) && 0 <= k < t.candidates.len() && t.candidates[k].function_rva
            != t.candidates[i].function_rva ==> exists|p: int|
            0 <= p < diags.len() && (#[trigger] diags[p])@ == (DiagShape {
                model_name: name,
                function_rva: Some(t.candidates[k].function_rva),
                kind: ModelResolverDiagnosticKind::RejectedInitializerCandidate,
                message: losing_candidate_message(t.candidates[i].function_rva, t.candidates[k]),
            })
}

/// The diagnostic reporting that the candidate at `rva` rejected the field
/// `c` for `name`.
pub open spec fn rejected_field_report(name: Seq<char>, rva: u32, c: CandidateShape) -> DiagShape {
    DiagShape {
        model_name: name,
        function_rva: Some(rva),
        kind: ModelResolverDiagnosticKind::RejectedField,
        message: rejected_field_message(c),
    }
}

/// `diags` report each field that a candidate in `cands` rejected.
pub open spec fn rejections_reported(name: Seq<char>, cands: Seq<EvalShape>, diags: Seq<ModelResolverDiagnostic>) -> bool {
    forall|k: int, q: int|
        #![trigger cands[k].rejected[q]]
        0 <= k < cands.len() && 0 <= q < cands[k].rejected.len() ==> exists|p: int|
            0 <= p < diags.len() && (#[trigger] diags[p])@ == rejected_field_report(
                name,
                cands[k].function_rva,
                cands[k].rejected[q],
            )
}

proof fn lemma_rejections_kept(name: Seq<char>, cands: Seq<EvalShape>, d1: Seq<ModelResolverDiagnostic>, d2: Seq<ModelResolverDiagnostic>)
    requires
        rejections_reported(name, cands, d1),
        extends(d1, d2),
    ensures
        rejections_reported(name, cands, d2),
{
    assert forall|k: int, q: int| #![trigger cands[k].rejected[q]] 0 <= k < cands.len() && 0 <= q < cands[k].rejected.len() implies exists|p: int|
        0 <= p < d2.len() && (#[trigger] d2[p])@ == rejected_field_report(name, cands[k].function_rva, cands[k].rejected[q]) by {
        let p = choose|p: int| 0 <= p < d1.len() && (#[trigger] d1[p])@ == rejected_field_report(
            name,
            cands[k].function_rva,
            cands[k].rejected[q],
        );
        assert(d2[p] == d1[p]);
    }
}

/// The functions of `fs` whose fields `source` extracts without error, in
/// order.
pub open spec fn extracted_ok<S: ModelResolutionSource>(source: S, fs: Seq<u32>) -> Seq<u32>
    decreases fs.len(),
{
    if fs.len() == 0 {
        seq![]
    } else if source.extraction_of(fs.last()) is Ok {
        extracted_ok(source, fs.drop_last()).push(fs.last())
    } else {
        extracted_ok(source, fs.drop_last())
    }
}

/// `e` is the candidate evaluated for `model` from the fields `source`
/// extracts from the function `f`: its address, the length the source
/// reports for it, and its fields each judged as the source may judge it
/// (see [`evaluate_candidate`]).
pub open spec fn candidate_from<S: ModelResolutionSource>(source: S, model: &str, f: u32, e: EvalShape) -> bool {
    match extraction_view(source.extraction_of(f)) {
        Ok(cs) => exists|accs: Seq<Acceptance>|
            #![trigger evaluation(f, source.length_of(f), cs, accs)]
            {
                &&& accs.len() == cs.len()
                &&& forall|k: int| 0 <= k < accs.len() ==> source_acceptance(source, model, #[trigger] cs[k], cs, accs[k])
                &&& e == evaluation(f, source.length_of(f), cs, accs)
            },
        Err(_) => false,
    }
}

/// `cands` are, in order, the candidates evaluated for `model` from the
/// functions of `fs` whose extraction succeeds.
pub open spec fn candidates_from<S: ModelResolutionSource>(
    source: S,
    model: &str,
    fs: Seq<u32>,
    cands: Seq<EvalShape>,
) -> bool {
    let ok = extracted_ok(source, fs);
    &&& cands.len() == ok.len()
    &&& forall|k: int| 0 <= k < ok.len() ==> candidate_from(source, model, ok[k], #[trigger] cands[k])
}

/// The diagnostic reporting that extracting the fields of `f` for `name`
/// failed with `m`.
pub open spec fn extractor_error_report(name: Seq<char>, f: u32, m: Seq<char>) -> DiagShape {
    DiagShape { model_name: name, function_rva: Some(f), kind: ModelResolverDiagnosticKind::ExtractorError, message: m }
}

/// A diagnostic for `name` is no missing-initializer report, and reports an
/// extraction error only for a function of `fs` whose extraction failed.
pub open spec fn name_diag_ok<S: ModelResolutionSource>(source: S, name: Seq<char>, fs: Seq<u32>, x: DiagShape) -> bool {
    x.model_name == name ==> {
        &&& x.kind != ModelResolverDiagnosticKind::NoInitializer
        &&& x.kind == ModelResolverDiagnosticKind::ExtractorError ==> exists|k: int|
            0 <= k < fs.len() && (#[trigger] source.extraction_of(fs[k]) matches Err(m) && x
                == extractor_error_report(name, fs[k], m@))
    }
}

/// The diagnostics `d` from `start` on report each failed extraction of a
/// function of `fs` for `name`, and no other extraction error and no
/// missing initializer for `name`.
pub open spec fn extraction_errors_reported<S: ModelResolutionSource>(
    source: S,
    name: Seq<char>,
    fs: Seq<u32>,
    start: int,
    d: Seq<ModelResolverDiagnostic>,
) -> bool {
    &&& forall|k: int| 0 <= k < fs.len() ==> (#[trigger] source.extraction_of(fs[k]) matches Err(m) ==> exists|p: int|
        start <= p < d.len() && (#[trigger] d[p])@ == extractor_error_report(name, fs[k], m@))
    &&& forall|p: int| start <= p < d.len() ==> name_diag_ok(source, name, fs, (#[trigger] d[p])@)
}

proof fn lemma_errors_extend<S: ModelResolutionSource>(
    source: S,
    name: Seq<char>,
    fs: Seq<u32>,
    start: int,
    d1: Seq<ModelResolverDiagnostic>,
    d2: Seq<ModelResolverDiagnostic>,
)
    requires
        0 <= start <= d1.len(),
        extraction_errors_reported(source, name, fs, start, d1),
        extends(d1, d2),
        forall|p: int| d1.len() <= p < d2.len() ==> name_diag_ok(source, name, fs, (#[trigger] d2[p])@),
    ensures
        extraction_errors_reported(source, name, fs, start, d2),
{
    assert forall|k: int| 0 <= k < fs.len() implies (#[trigger] source.extraction_of(fs[k]) matches Err(m) ==> exists|p: int|
        start <= p < d2.len() && (#[trigger] d2[p])@ == extractor_error_report(name, fs[k], m@)) by {
        match source.extraction_of(fs[k]) {
            Err(m) => {
                let p = choose|p: int| start <= p < d1.len() && (#[trigger] d1[p])@ == extractor_error_report(name, fs[k], m@);
                assert(d2[p] == d1[p]);
            },
            Ok(_) => {},
        }
    }
    assert forall|p: int| start <= p < d2.len() implies name_diag_ok(source, name, fs, (#[trigger] d2[p])@) by {
        if p < d1.len() {
            assert(d2[p] == d1[p]);
        }
    }
}

/// The diagnostics `d` from `start` on name only models outside `names`.
pub open spec fn foreign_diags(names: Set<Seq<char>>, start: int, d: Seq<ModelResolverDiagnostic>) -> bool {
    forall|p: int| start <= p < d.len() ==> !names.contains((#[trigger] d[p])@.model_name)
}

/// The diagnostics a resolution of `name` by `source` adds, `d` beyond
/// `before`, the trials being `after`: none for a placeholder model; for a
/// model without a vtable, exactly a missing-initializer report that no
/// vtable was found; for a vtable without functions, exactly a
/// missing-initializer report naming the vtable; else a report of each
/// failed extraction of the trial, and, for `name`, no other extraction
/// error and no missing initializer (see [`extraction_errors_reported`]).
pub open spec fn fresh_diagnostics<S: ModelResolutionSource>(
    source: S,
    name: &str,
    after: Seq<TrialShape>,
    before: Seq<ModelResolverDiagnostic>,
    d: Seq<ModelResolverDiagnostic>,
) -> bool {
    if is_empty_model_spec(name@) {
        d == before
    } else {
        match source.vtable_of(name) {
            None => diags_view(d) == diags_view(before).push(
                DiagShape {
                    model_name: name@,
                    function_rva: None,
                    kind: ModelResolverDiagnosticKind::NoInitializer,
                    message: "no vtable found for model"@,
                },
            ),
            Some(v) => if funcs_seq(source.functions_of(v)).len() == 0 {
                diags_view(d) == diags_view(before).push(
                    DiagShape {
                        model_name: name@,
                        function_rva: None,
                        kind: ModelResolverDiagnosticKind::NoInitializer,
                        message: "no initializer candidates found for vtable "@ + "0x"@ + hex_text(v as nat),
                    },
                )
            } else {
                extraction_errors_reported(source, name@, after.last().extracted, before.len() as int, d)
            },
        }
    }
}

/// How a model that was neither resolved before nor under way is resolved
/// by `source`, where `before` and `after` are the resolver's trials before
/// and after: a placeholder model has no data and no warning; a model
/// without a vtable, or whose vtable has no functions, has no data and the
/// no-data warning; neither adds a trial. Else one trial for `name` is
/// added last: it records the source's answers to which functions of the
/// vtable are qualified; the functions extracted are those the source calls
/// qualified or, when it calls none so, all of them (see
/// [`functions_to_extract`]), at least one; the candidates are, in order,
/// the evaluations of the fields of each extraction that succeeded (see
/// [`candidates_from`]); and the result is the trial's resolution (see
/// [`trial_resolution`]).
pub open spec fn fresh_resolution<S: ModelResolutionSource>(
    source: S,
    name: &str,
    r: EntryShape,
    before: Seq<TrialShape>,
    after: Seq<TrialShape>,
) -> bool {
    if is_empty_model_spec(name@) {
        r == (EntryShape { name: name@, offset: None, fields: seq![], warn: None }) && after == before
    } else {
        match source.vtable_of(name) {
            None => r == (EntryShape { name: name@, offset: None, fields: seq![], warn: no_data_warn(name@) })
                && after == before,
            Some(v) => {
                let funcs = funcs_seq(source.functions_of(v));
                if funcs.len() == 0 {
                    r == (EntryShape { name: name@, offset: None, fields: seq![], warn: no_data_warn(name@) })
                        && after == before
                } else {
                    let t = after.last();
                    &&& after.len() > before.len()
                    &&& t.model == name@
                    &&& t.qualified == funcs.map_values(|f: u32| source.qualified_of(f))
                    &&& t.extracted == functions_to_extract(funcs, t.qualified)
                    &&& t.extracted.len() > 0
                    &&& forall|k: int| 0 <= k < t.extracted.len() ==> funcs.contains(#[trigger] t.extracted[k])
                    &&& candidates_from(source, name, t.extracted, t.candidates)
                    &&& trial_resolution(name@, t, r)
                }
            },
        }
    }
}

/// `e` is a resolution `source` gives for the model called `k`: a fresh
/// resolution (see [`fresh_resolution`]) of a name with that text, for some
/// trials.
pub open spec fn resolvable<S: ModelResolutionSource>(source: S, k: Seq<char>, e: EntryShape) -> bool {
    exists|n: &str, before: Seq<TrialShape>, after: Seq<TrialShape>|
        n@ == k && #[trigger] fresh_resolution(source, n, e, before, after)
}

proof fn lemma_extracted_ok_same<S: ModelResolutionSource>(a: S, b: S, fs: Seq<u32>)
    requires
        same_answers(a, b),
    ensures
        extracted_ok(a, fs) == extracted_ok(b, fs),
    decreases fs.len(),
{
    if fs.len() > 0 {
        lemma_extracted_ok_same(a, b, fs.drop_last());
        assert(b.extraction_of(fs.last()) == a.extraction_of(fs.last()));
    }
}

/// Sources that give the same answers resolve a model alike.
pub proof fn lemma_fresh_same<S: ModelResolutionSource>(
    a: S,
    b: S,
    n: &str,
    e: EntryShape,
    before: Seq<TrialShape>,
    after: Seq<TrialShape>,
)
    requires
        same_answers(a, b),
        fresh_resolution(a, n, e, before, after),
    ensures
        fresh_resolution(b, n, e, before, after),
{
    assert(b.vtable_of(n) == a.vtable_of(n));
    if !is_empty_model_spec(n@) {
        if let Some(v) = a.vtable_of(n) {
            assert(b.functions_of(v) == a.functions_of(v));
            let funcs = funcs_seq(a.functions_of(v));
            if funcs.len() > 0 {
                let t = after.last();
                assert(funcs.map_values(|f: u32| b.qualified_of(f)) =~= funcs.map_values(|f: u32| a.qualified_of(f)));
                lemma_extracted_ok_same(a, b, t.extracted);
                let ok = extracted_ok(a, t.extracted);
                assert forall|k: int| 0 <= k < ok.len() implies candidate_from(b, n, ok[k], #[trigger] t.candidates[k]) by {
                    assert(candidate_from(a, n, ok[k], t.candidates[k]));
                    assert(b.extraction_of(ok[k]) == a.extraction_of(ok[k]));
                    assert(b.length_of(ok[k]) == a.length_of(ok[k]));
                    if let Ok(cs) = extraction_view(a.extraction_of(ok[k])) {
                        let accs = choose|accs: Seq<Acceptance>| {
                            &&& accs.len() == cs.len()
                            &&& forall|q: int| 0 <= q < accs.len() ==> source_acceptance(a, n, #[trigger] cs[q], cs, accs[q])
                            &&& t.candidates[k] == evaluation(ok[k], a.length_of(ok[k]), cs, accs)
                        };
                        assert forall|q: int| 0 <= q < accs.len() implies source_acceptance(b, n, #[trigger] cs[q], cs, accs[q]) by {
                            lemma_acceptance_same(a, b, n, cs[q], cs, accs[q]);
                        }
                    }
                }
            }
        }
    }
}

impl ResolvedModel {
    /// A copy of this resolution.
    pub fn duplicate(&self) -> (r: ResolvedModel)
        ensures
            r@ == self@,
    {
        ResolvedModel {
            name: self.name.clone(),
            offset: crate::extractor::copy_opt_string(&self.offset),
            fields: copy_fields(&self.fields),
            warn: crate::extractor::copy_opt_string(&self.warn),
        }
    }
}

/// The message of a rejected-field diagnostic.
pub open spec fn rejected_field_message(c: CandidateShape) -> Seq<char> {
    "rejected field '"@ + c.name + "' owned by "@ + debug_text(c.owner_type) + ": "@ + match c.rejection_reason {
        Some(r) => r,
        None => "owner mismatch"@,
    }
}

fn rejected_field_diagnostic(model_name: &str, func_rva: u32, c: &FieldCandidate) -> (r: ModelResolverDiagnostic)
    ensures
        r@ == (DiagShape {
            model_name: model_name@,
            function_rva: Some(func_rva),
            kind: ModelResolverDiagnosticKind::RejectedField,
            message: rejected_field_message(c@),
        }),
{
    let mut m = chars_of("rejected field '");
    append_str(&mut m, c.name.as_str());
    append_str(&mut m, "' owned by ");
    let d = debug_opt_string(&c.owner_type);
    append_str(&mut m, d.as_str());
    append_str(&mut m, ": ");
    match &c.rejection_reason {
        Some(r) => append_str(&mut m, r.as_str()),
        None => append_str(&mut m, "owner mismatch"),
    }
    ModelResolverDiagnostic {
        model_name: owned(model_name),
        function_rva: Some(func_rva),
        kind: ModelResolverDiagnosticKind::RejectedField,
        message: string_of(&m),
    }
}

/// The message of a diagnostic for a candidate that lost to the one at
/// `selected`.
pub open spec fn losing_candidate_message(selected: u32, e: EvalShape) -> Seq<char> {
    "rejected initializer candidate; selected 0x"@ + hex_text(selected as nat) + "; owner_rank="@
        + decimal_text(e.score.owner_rank as nat) + ", accepted_fields="@ + decimal_text(
        e.accepted.len(),
    ) + ", rejected_fields="@ + decimal_text(e.rejected.len())
}

fn losing_candidate_diagnostic(model_name: &str, selected: u32, c: &EvaluatedCandidate) -> (r:
    ModelResolverDiagnostic)
    ensures
        r@ == (DiagShape {
            model_name: model_name@,
            function_rva: Some(c.function_rva),
            kind: ModelResolverDiagnosticKind::RejectedInitializerCandidate,
            message: losing_candidate_message(selected, c@),
        }),
{
    let mut m = chars_of("rejected initializer candidate; selected 0x");
    let h = crate::text::hex_chars(selected as u64);
    append(&mut m, &h);
    append_str(&mut m, "; owner_rank=");
    let a = crate::text::decimal_chars(c.score.owner_rank as u64);
    append(&mut m, &a);
    append_str(&mut m, ", accepted_fields=");
    let b = crate::text::decimal_chars(c.accepted_fields.len() as u64);
    append(&mut m, &b);
    append_str(&mut m, ", rejected_fields=");
    let d = crate::text::decimal_chars(c.rejected_fields.len() as u64);
    append(&mut m, &d);
    ModelResolverDiagnostic {
        model_name: owned(model_name),
        function_rva: Some(c.function_rva),
        kind: ModelResolverDiagnosticKind::RejectedInitializerCandidate,
        message: string_of(&m),
    }
}

// ---------------------------------------------------------------------------
// The resolver
// ---------------------------------------------------------------------------

/// Resolves models through a source, caching each resolution and collecting
/// diagnostics.
pub struct ModelResolver<S> {
    source: S,
    cache: NameMap<ResolvedModel>,
    diagnostics: Vec<ModelResolverDiagnostic>,
    in_progress: NameSet,
    lookups: Ghost<Seq<(Seq<char>, EntryShape)>>,
    base_checks: Ghost<Seq<Seq<(Seq<char>, bool)>>>,
    trials: Ghost<Seq<TrialShape>>,
    origin: Ghost<S>,
}

impl<S: ModelResolutionSource> ModelResolver<S> {
    /// The resolver is whole and no resolution is under way (see
    /// [`ModelResolver::idle`]).
    pub closed spec fn wf(&self) -> bool {
        self.inv() && self.idle()
    }

    /// The cache holds only resolutions that satisfy [`resolution_ok`].
    spec fn inv(&self) -> bool {
        &&& self.cache.wf()
        &&& self.in_progress.wf()
        &&& forall|k: Seq<char>| #[trigger] self.cache.spec_get(k) matches Some(v) ==> resolution_ok(k, v@)
        &&& forall|k: Seq<char>| #[trigger] self.in_progress@.contains(k) ==> self.cache.spec_get(k) is None
        &&& same_answers(self.origin@, self.source)
        &&& forall|k: Seq<char>| #[trigger] self.cache.spec_get(k) matches Some(v) ==> resolvable(self.origin@, k, v@)
    }

    /// The source the resolver was made with.
    pub closed spec fn origin(&self) -> S {
        self.origin@
    }

    /// The resolution recorded for the model called `name`, if it was
    /// resolved before.
    pub closed spec fn resolved(&self, name: Seq<char>) -> Option<EntryShape> {
        match self.cache.spec_get(name) {
            Some(v) => Some(v@),
            None => None,
        }
    }

    /// No resolution is under way.
    pub closed spec fn idle(&self) -> bool {
        self.in_progress@.len() == 0
    }

    /// Every resolution recorded in `self` is recorded, unchanged, in
    /// `other`; and the same models are under way in both.
    pub closed spec fn kept_by(&self, other: &Self) -> bool {
        &&& forall|k: Seq<char>| #[trigger] self.cache.spec_get(k) is Some ==> other.cache.spec_get(k)
            == self.cache.spec_get(k)
        &&& other.in_progress@.to_set() == self.in_progress@.to_set()
        &&& extends(self.base_checks@, other.base_checks@)
        &&& extends(self.trials@, other.trials@)
        &&& same_answers(self.source, other.source)
        &&& other.origin == self.origin
    }

    /// Every name looked up so far was resolved to the entry given for it.
    pub closed spec fn lookups_resolved(&self) -> bool {
        forall|k: int| 0 <= k < self.lookups@.len() ==> self.resolved(#[trigger] self.lookups@[k].0) == Some(
            self.lookups@[k].1,
        )
    }

    /// The source the resolver asks.
    pub closed spec fn source_spec(&self) -> S {
        self.source
    }

    /// The trials made so far, in order (see [`TrialShape`]).
    pub closed spec fn trials(&self) -> Seq<TrialShape> {
        self.trials@
    }

    /// The diagnostics collected so far.
    pub closed spec fn diagnostics_view(&self) -> Seq<ModelResolverDiagnostic> {
        self.diagnostics@
    }
}

/// Two sequences with the same elements are both empty or both not.
proof fn lemma_empty_iff_no_elements(a: Seq<Seq<char>>, b: Seq<Seq<char>>)
    requires
        a.to_set() == b.to_set(),
    ensures
        (a.len() == 0) == (b.len() == 0),
{
    if a.len() > 0 {
        assert(a.to_set().contains(a[0]));
    }
    if b.len() > 0 {
        assert(b.to_set().contains(b[0]));
    }
}

impl<S: ModelResolutionSource> ModelResolver<S> {
    /// A resolver with nothing resolved yet.
    pub fn new(source: S) -> (r: ModelResolver<S>)
        ensures
            r.wf(),
            r.diagnostics_view() == Seq::<ModelResolverDiagnostic>::empty(),
            r.lookups() == Seq::<(Seq<char>, EntryShape)>::empty(),
            r.lookups_resolved(),
            forall|k: Seq<char>| #[trigger] r.resolved(k) is None,
            r.trials() == Seq::<TrialShape>::empty(),
            r.source_spec() == source,
            r.origin() == source,
    {
        let cache: NameMap<ResolvedModel> = NameMap::new();
        proof {
            assert forall|k: Seq<char>| #[trigger] cache.spec_get(k) is None by {
                cache.lemma_domain(k);
            }
        }
        ModelResolver {
            source,
            cache,
            diagnostics: Vec::new(),
            in_progress: NameSet::new(),
            lookups: Ghost(Seq::empty()),
            base_checks: Ghost(Seq::empty()),
            trials: Ghost(Seq::empty()),
            origin: Ghost(source),
        }
    }

    /// The diagnostics collected so far.
    pub fn diagnostics(&self) -> (r: &[ModelResolverDiagnostic])
        ensures
            r@ == self.diagnostics_view(),
    {
        self.diagnostics.as_slice()
    }

    /// Every entry given so far is a resolution the resolver's source gives
    /// for its name (see [`resolvable`]).
    pub proof fn lemma_lookups_answered(&self)
        requires
            self.wf(),
            self.lookups_resolved(),
        ensures
            forall|k: int| 0 <= k < TypeEntryResolver::lookups(self).len() ==> resolvable(
                self.origin(),
                (#[trigger] TypeEntryResolver::lookups(self)[k]).0,
                TypeEntryResolver::lookups(self)[k].1,
            ),
    {
        let l = self.lookups@;
        assert forall|k: int| 0 <= k < l.len() implies resolvable(self.origin@, (#[trigger] l[k]).0, l[k].1) by {
            assert(self.resolved(l[k].0) == Some(l[k].1));
            assert(self.cache.spec_get(l[k].0) is Some);
        }
    }

    /// A name looked up twice was given the same entry both times.
    pub proof fn lemma_lookups_agree(&self)
        requires
            self.lookups_resolved(),
        ensures
            crate::dumper::consistent_lookups(TypeEntryResolver::lookups(self)),
    {
        let l = self.lookups@;
        assert forall|a: int, b: int| 0 <= a < l.len() && 0 <= b < l.len() && (#[trigger] l[a]).0 == (#[trigger] l[b]).0
            implies l[a].1 == l[b].1 by {
            assert(self.resolved(l[a].0) == Some(l[a].1));
            assert(self.resolved(l[b].0) == Some(l[b].1));
        }
    }

    /// Resolves the model called `name`: from the cache when it was resolved
    /// before, as a model without data when it is being resolved already,
    /// else by choosing among the initializers of its vtable.
    pub fn resolve_model(&mut self, name: &str) -> (r: ResolvedModel)
        requires
            old(self).wf(),
        ensures
            final(self).wf(),
            resolution_ok(name@, r@),
            extends(old(self).diagnostics_view(), final(self).diagnostics_view()),
            final(self).lookups() == old(self).lookups(),
            old(self).kept_by(&*final(self)),
            old(self).resolved(name@) matches Some(e) ==> r@ == e && *final(self) == *old(self),
            final(self).resolved(name@) == Some(r@),
            old(self).resolved(name@) is None ==> fresh_resolution(
                old(self).source_spec(),
                name,
                r@,
                old(self).trials(),
                final(self).trials(),
            ),
            old(self).resolved(name@) is None ==> fresh_diagnostics(
                old(self).source_spec(),
                name,
                final(self).trials(),
                old(self).diagnostics_view(),
                final(self).diagnostics_view(),
            ),
            old(self).resolved(name@) is None && final(self).trials().len() > old(self).trials().len()
                && final(self).trials().last().base_has_fields ==> exists|b: Seq<char>|
                b != name@ && old(self).source_spec().bases_listed(name).deep_view().contains(b)
                && (#[trigger] final(self).resolved(b) matches Some(e) && e.fields.len() > 0),
            old(self).resolved(name@) is None && final(self).trials().len() > old(self).trials().len()
                ==> losers_reported(name@, final(self).trials().last(), final(self).diagnostics_view()),
    {
        proof {
            assert(!old(self).in_progress@.contains(name@));
        }
        let r = self.resolve_at(name, u32::MAX);
        proof {
            if old(self).resolved(name@) is None && self.trials().len() > old(self).trials().len()
                && self.trials().last().base_has_fields {
                let b = choose|b: Seq<char>| b != name@ && old(self).source.bases_listed(name).deep_view().contains(b)
                    && (#[trigger] self.cache.spec_get(b) matches Some(v) && v.fields.len() > 0);
                assert(self.resolved(b) matches Some(e) && e.fields.len() > 0);
            }
            lemma_empty_iff_no_elements(old(self).in_progress@, self.in_progress@);
        }
        r
    }

    fn resolve_at(&mut self, name: &str, depth: u32) -> (r: ResolvedModel)
        requires
            old(self).inv(),
        ensures
            final(self).inv(),
            resolution_ok(name@, r@),
            extends(old(self).diagnostics@, final(self).diagnostics@),
            final(self).lookups == old(self).lookups,
            old(self).kept_by(&*final(self)),
            old(self).cache.spec_get(name@) matches Some(v) ==> r@ == v@,
            !old(self).in_progress@.contains(name@) ==> (final(self).cache.spec_get(name@) matches Some(v)
                && v@ == r@),
            old(self).cache.spec_get(name@) is Some ==> *final(self) == *old(self),
            foreign_diags(old(self).in_progress@.to_set(), old(self).diagnostics@.len() as int, final(self).diagnostics@),
            old(self).cache.spec_get(name@) is None && !old(self).in_progress@.contains(name@) ==> fresh_diagnostics(
                old(self).source,
                name,
                final(self).trials@,
                old(self).diagnostics@,
                final(self).diagnostics@,
            ),
            old(self).cache.spec_get(name@) is None && !old(self).in_progress@.contains(name@)
                ==> fresh_resolution(old(self).source, name, r@, old(self).trials@, final(self).trials@),
            old(self).cache.spec_get(name@) is None && !old(self).in_progress@.contains(name@)
                && final(self).trials@.len() > old(self).trials@.len() && final(self).trials@.last().base_has_fields
                ==> exists|b: Seq<char>| b != name@ && old(self).source.bases_listed(name).deep_view().contains(b)
                && (#[trigger] final(self).cache.spec_get(b) matches Some(v) && v.fields.len() > 0),
            old(self).cache.spec_get(name@) is None && !old(self).in_progress@.contains(name@)
                && final(self).trials@.len() > old(self).trials@.len() ==> losers_reported(
                name@,
                final(self).trials@.last(),
                final(self).diagnostics@,
            ),
        decreases depth, 2nat,
    {
        if let Some(cached) = self.cache.get(name) {
            let r = cached.duplicate();
            return r;
        }
        if self.in_progress.contains(name) {
            let r = no_data_model(name, None, warn_for_no_data(name));
            return r;
        }
        let ghost s0 = self.in_progress@.to_set();
        let ghost c0 = self.cache;
        self.in_progress.insert(owned(name));
        proof {
            assert forall|k: Seq<char>| #[trigger] self.in_progress@.contains(k) implies self.cache.spec_get(k) is None by {
                assert(self.in_progress@.to_set().contains(k));
                if k != name@ {
                    assert(old(self).in_progress@.to_set().contains(k));
                }
            }
        }
        proof {
            assert(self.in_progress@.to_set().contains(name@));
            assert(self.in_progress@.contains(name@));
        }
        let ghost mid = *self;
        let resolved = self.resolve_uncached(name, depth);
        proof {
            assert(self.in_progress@.to_set().contains(name@)) by {
                assert(mid.in_progress@.to_set().contains(name@));
            }
            assert(self.cache.spec_get(name@) is None);
        }
        self.in_progress.remove(name);
        let ghost before = self.cache;
        self.cache.set(owned(name), resolved.duplicate());
        proof {
            assert forall|k: Seq<char>| #[trigger] self.cache.spec_get(k) is Some implies resolution_ok(
                k,
                self.cache.spec_get(k)->0@,
            ) by {
                if k != name@ {
                    assert(self.cache.spec_get(k) == before.spec_get(k));
                }
            }
            assert(self.in_progress@.to_set() =~= s0);
            assert forall|k: Seq<char>| #[trigger] self.in_progress@.contains(k) implies self.cache.spec_get(k) is None by {
                assert(self.in_progress@.to_set().contains(k));
                assert(mid.in_progress@.to_set().contains(k));
                assert(k != name@);
            }
            assert forall|k: Seq<char>| #[trigger] c0.spec_get(k) is Some implies self.cache.spec_get(k) == c0.spec_get(k) by {
                assert(k != name@);
            }
            if old(self).cache.spec_get(name@) is None && !old(self).in_progress@.contains(name@) {
                lemma_fresh_same(old(self).source, old(self).origin@, name, resolved@, old(self).trials@, self.trials@);
                assert(fresh_resolution(self.origin@, name, resolved@, old(self).trials@, self.trials@));
                assert(resolvable(self.origin@, name@, resolved@));
            }
            if self.trials@.len() > old(self).trials@.len() && self.trials@.last().base_has_fields {
                let b = choose|b: Seq<char>| b != name@ && old(self).source.bases_listed(name).deep_view().contains(b)
                    && (#[trigger] before.spec_get(b) matches Some(v) && v.fields.len() > 0);
                assert(self.cache.spec_get(b) == before.spec_get(b));
            }
        }
        resolved
    }

    fn push_diagnostic(&mut self, d: ModelResolverDiagnostic)
        requires
            old(self).inv(),
        ensures
            final(self).inv(),
            final(self).diagnostics@ == old(self).diagnostics@.push(d),
            final(self).lookups == old(self).lookups,
            final(self).cache == old(self).cache,
            final(self).in_progress == old(self).in_progress,
            final(self).base_checks == old(self).base_checks,
            final(self).trials == old(self).trials,
            final(self).origin == old(self).origin,
            final(self).source == old(self).source,
    {
        self.diagnostics.push(d);
    }

    /// Extracts the fields of the function at `f` and evaluates a candidate
    /// from them, reporting each field it rejects; or reports the failed
    /// extraction.
    fn evaluate_one(&mut self, name: &str, f: u32) -> (r: Option<EvaluatedCandidate>)
        requires
            old(self).inv(),
        ensures
            final(self).inv(),
            final(self).lookups == old(self).lookups,
            final(self).cache == old(self).cache,
            final(self).in_progress == old(self).in_progress,
            final(self).base_checks == old(self).base_checks,
            final(self).trials == old(self).trials,
            final(self).origin == old(self).origin,
            same_answers(old(self).source, final(self).source),
            extends(old(self).diagnostics@, final(self).diagnostics@),
            match r {
                Some(c) => {
                    &&& old(self).source.extraction_of(f) is Ok
                    &&& candidate_from(old(self).source, name, f, c@)
                    &&& rejections_reported(name@, seq![c@], final(self).diagnostics@)
                    &&& forall|p: int| old(self).diagnostics@.len() <= p < final(self).diagnostics@.len() ==> (
                    #[trigger] final(self).diagnostics@[p])@.model_name == name@
                        && final(self).diagnostics@[p]@.kind == ModelResolverDiagnosticKind::RejectedField
                },
                None => old(self).source.extraction_of(f) matches Err(m) && diags_view(final(self).diagnostics@)
                    == diags_view(old(self).diagnostics@).push(extractor_error_report(name@, f, m@)),
            },
    {
        let ghost src0 = self.source;
        let ghost d0 = self.diagnostics@;
        let function_len = self.source.function_len(f);
        match self.source.extract_fields(f) {
            Ok(fields) => {
                let ghost fv = fields@;
                let ghost src1 = self.source;
                let candidate = evaluate_candidate(&self.source, name, f, function_len, fields);
                let ghost cv = candidate@;
                let mut k: usize = 0;
                while k < candidate.rejected_fields.len()
                    invariant
                        k <= candidate.rejected_fields.len(),
                        cv == candidate@,
                        extends(d0, self.diagnostics@),
                        self.inv(),
                        self.lookups == old(self).lookups,
                        self.cache == old(self).cache,
                        self.in_progress == old(self).in_progress,
                        self.base_checks == old(self).base_checks,
                        self.trials == old(self).trials,
                        self.origin == old(self).origin,
                        same_answers(src0, self.source),
                        forall|q: int| #![trigger cv.rejected[q]] 0 <= q < k ==> exists|p: int|
                            0 <= p < self.diagnostics@.len() && (#[trigger] self.diagnostics@[p])@
                                == rejected_field_report(name@, f, cv.rejected[q]),
                        forall|p: int| d0.len() <= p < self.diagnostics@.len() ==> (#[trigger] self.diagnostics@[p])@.model_name
                            == name@ && self.diagnostics@[p]@.kind == ModelResolverDiagnosticKind::RejectedField,
                    decreases candidate.rejected_fields.len() - k,
                {
                    let d = rejected_field_diagnostic(name, f, &candidate.rejected_fields[k]);
                    let ghost prev = self.diagnostics@;
                    self.push_diagnostic(d);
                    proof {
                        assert(cv.rejected[k as int] == candidate.rejected_fields@[k as int]@);
                        assert(self.diagnostics@[prev.len() as int] == d);
                        assert forall|q: int| #![trigger cv.rejected[q]] 0 <= q < k + 1 implies exists|p: int|
                            0 <= p < self.diagnostics@.len() && (#[trigger] self.diagnostics@[p])@
                                == rejected_field_report(name@, f, cv.rejected[q]) by {
                            if q == k {
                                assert(self.diagnostics@[prev.len() as int]@ == rejected_field_report(name@, f, cv.rejected[q]));
                            } else {
                                let p = choose|p: int| 0 <= p < prev.len() && (#[trigger] prev[p])@
                                    == rejected_field_report(name@, f, cv.rejected[q]);
                                assert(self.diagnostics@[p] == prev[p]);
                            }
                        }
                        assert forall|p: int| d0.len() <= p < self.diagnostics@.len() implies (#[trigger] self.diagnostics@[p])@.model_name
                            == name@ && self.diagnostics@[p]@.kind == ModelResolverDiagnosticKind::RejectedField by {
                            if p < prev.len() {
                                assert(self.diagnostics@[p] == prev[p]);
                            }
                        }
                    }
                    k = k + 1;
                }
                proof {
                    let cs = candidates_view(fv);
                    assert(extraction_view(src0.extraction_of(f)) == Ok::<Seq<CandidateShape>, Seq<char>>(cs));
                    assert(function_len == src0.length_of(f));
                    let accs = choose|accs: Seq<Acceptance>| {
                        &&& accs.len() == fv.len()
                        &&& forall|q: int| 0 <= q < accs.len() ==> source_acceptance(
                            src1,
                            name,
                            #[trigger] fv[q]@,
                            candidates_view(fv),
                            accs[q],
                        )
                        &&& cv == evaluation(f, function_len, candidates_view(fv), accs)
                    };
                    assert forall|q: int| 0 <= q < accs.len() implies source_acceptance(
                        src0,
                        name,
                        #[trigger] cs[q],
                        cs,
                        accs[q],
                    ) by {
                        assert(cs[q] == fv[q]@);
                        assert(source_acceptance(src1, name, fv[q]@, candidates_view(fv), accs[q]));
                        lemma_acceptance_same(src1, src0, name, cs[q], cs, accs[q]);
                    }
                    assert(cv == evaluation(f, src0.length_of(f), cs, accs));
                    assert(accs.len() == cs.len());
                    match extraction_view(src0.extraction_of(f)) {
                        Ok(cs2) => {
                            assert(cs2 == cs);
                        },
                        Err(_) => {},
                    }
                    assert(candidate_from(src0, name, f, cv));
                    assert forall|kk: int, q: int| #![trigger seq![cv][kk].rejected[q]] 0 <= kk < 1 && 0 <= q < seq![
                        cv,
                    ][kk].rejected.len() implies exists|p: int|
                        0 <= p < self.diagnostics@.len() && (#[trigger] self.diagnostics@[p])@ == rejected_field_report(
                            name@,
                            seq![cv][kk].function_rva,
                            seq![cv][kk].rejected[q],
                        ) by {
                        assert(seq![cv][kk] == cv);
                        assert(cv.rejected[q] == cv.rejected[q]);
                    }
                }
                Some(candidate)
            },
            Err(message) => {
                let ghost prev = self.diagnostics@;
                let d = ModelResolverDiagnostic {
                    model_name: owned(name),
                    function_rva: Some(f),
                    kind: ModelResolverDiagnosticKind::ExtractorError,
                    message,
                };
                self.push_diagnostic(d);
                proof {
                    assert(diags_view(self.diagnostics@) =~= diags_view(prev).push(d@));
                }
                None
            },
        }
    }

    /// Extracts the fields of each function of `fs`, in order, evaluating a
    /// candidate from each extraction that succeeds (see
    /// [`candidates_from`]), and reports each rejected field and each
    /// failed extraction.
    fn evaluate_initializers(&mut self, name: &str, fs: &Vec<u32>) -> (r: Vec<EvaluatedCandidate>)
        requires
            old(self).inv(),
        ensures
            final(self).inv(),
            final(self).lookups == old(self).lookups,
            final(self).cache == old(self).cache,
            final(self).in_progress == old(self).in_progress,
            final(self).base_checks == old(self).base_checks,
            final(self).trials == old(self).trials,
            final(self).origin == old(self).origin,
            same_answers(old(self).source, final(self).source),
            extends(old(self).diagnostics@, final(self).diagnostics@),
            candidates_from(old(self).source, name, fs@, r@.map_values(|c: EvaluatedCandidate| c@)),
            rejections_reported(name@, r@.map_values(|c: EvaluatedCandidate| c@), final(self).diagnostics@),
            extraction_errors_reported(
                old(self).source,
                name@,
                fs@,
                old(self).diagnostics@.len() as int,
                final(self).diagnostics@,
            ),
            forall|p: int| old(self).diagnostics@.len() <= p < final(self).diagnostics@.len() ==> (
            #[trigger] final(self).diagnostics@[p])@.model_name == name@,
    {
        let ghost src0 = self.source;
        let ghost d0 = self.diagnostics@;
        let mut evaluated: Vec<EvaluatedCandidate> = Vec::new();
        let mut j: usize = 0;
        while j < fs.len()
            invariant
                j <= fs.len(),
                self.inv(),
                self.lookups == old(self).lookups,
                self.cache == old(self).cache,
                self.in_progress == old(self).in_progress,
                self.base_checks == old(self).base_checks,
                self.trials == old(self).trials,
                self.origin == old(self).origin,
                same_answers(src0, self.source),
                src0 == old(self).source,
                d0 == old(self).diagnostics@,
                extends(d0, self.diagnostics@),
                candidates_from(src0, name, fs@.take(j as int), evaluated@.map_values(|c: EvaluatedCandidate| c@)),
                rejections_reported(name@, evaluated@.map_values(|c: EvaluatedCandidate| c@), self.diagnostics@),
                extraction_errors_reported(src0, name@, fs@.take(j as int), d0.len() as int, self.diagnostics@),
                forall|p: int| d0.len() <= p < self.diagnostics@.len() ==> (#[trigger] self.diagnostics@[p])@.model_name
                    == name@,
            decreases fs.len() - j,
        {
            let f = fs[j];
            let ghost ev0 = evaluated@.map_values(|c: EvaluatedCandidate| c@);
            let ghost prev = self.diagnostics@;
            let ghost t0 = fs@.take(j as int);
            let ghost t1 = fs@.take(j + 1);
            proof {
                assert(t1.drop_last() =~= t0);
                assert(t1.last() == f);
            }
            let one = self.evaluate_one(name, f);
            proof {
                lemma_rejections_kept(name@, ev0, prev, self.diagnostics@);
            }
            match one {
                Some(c) => {
                    evaluated.push(c);
                    proof {
                        let ev1 = evaluated@.map_values(|x: EvaluatedCandidate| x@);
                        assert(ev1 =~= ev0.push(c@));
                        let ok0 = extracted_ok(src0, t0);
                        assert(extracted_ok(src0, t1) == ok0.push(f));
                        assert forall|k: int| 0 <= k < ok0.len() + 1 implies candidate_from(src0, name, extracted_ok(src0, t1)[k], #[trigger] ev1[k]) by {
                            if k < ok0.len() {
                                assert(ev1[k] == ev0[k]);
                            }
                        }
                        assert forall|kk: int, q: int| #![trigger ev1[kk].rejected[q]] 0 <= kk < ev1.len() && 0 <= q < ev1[kk].rejected.len() implies exists|p: int|
                            0 <= p < self.diagnostics@.len() && (#[trigger] self.diagnostics@[p])@ == rejected_field_report(
                                name@,
                                ev1[kk].function_rva,
                                ev1[kk].rejected[q],
                            ) by {
                            if kk < ev0.len() {
                                assert(ev1[kk] == ev0[kk]);
                                assert(ev0[kk].rejected[q] == ev0[kk].rejected[q]);
                            } else {
                                assert(ev1[kk] == seq![c@][0]);
                                assert(seq![c@][0].rejected[q] == seq![c@][0].rejected[q]);
                            }
                        }
                    }
                },
                None => {
                    proof {
                        assert(extracted_ok(src0, t1) == extracted_ok(src0, t0));
                    }
                },
            }
            proof {
                let d = self.diagnostics@;
                assert forall|k: int| 0 <= k < t1.len() implies (#[trigger] src0.extraction_of(t1[k]) matches Err(m)
                    ==> exists|p: int| d0.len() <= p < d.len() && (#[trigger] d[p])@ == extractor_error_report(name@, t1[k], m@)) by {
                    if k < t0.len() {
                        assert(t1[k] == t0[k]);
                        match src0.extraction_of(t0[k]) {
                            Err(m) => {
                                let p = choose|p: int| d0.len() <= p < prev.len() && (#[trigger] prev[p])@
                                    == extractor_error_report(name@, t0[k], m@);
                                assert(d[p] == prev[p]);
                            },
                            Ok(_) => {},
                        }
                    } else {
                        assert(t1[k] == f);
                        match src0.extraction_of(f) {
                            Err(m) => {
                                assert(one is None);
                                assert(diags_view(d).len() == d.len());
                                assert(diags_view(d)[prev.len() as int] == d[prev.len() as int]@);
                                assert(d[prev.len() as int]@ == extractor_error_report(name@, f, m@));
                            },
                            Ok(_) => {},
                        }
                    }
                }
                assert forall|p: int| d0.len() <= p < d.len() implies name_diag_ok(src0, name@, t1, (#[trigger] d[p])@)
                    && d[p]@.model_name == name@ by {
                    if p < prev.len() {
                        assert(d[p] == prev[p]);
                        if d[p]@.kind == ModelResolverDiagnosticKind::ExtractorError {
                            let k = choose|k: int| 0 <= k < t0.len() && (#[trigger] src0.extraction_of(t0[k]) matches Err(m)
                                && prev[p]@ == extractor_error_report(name@, t0[k], m@));
                            assert(t1[k] == t0[k]);
                            assert(src0.extraction_of(t1[k]) == src0.extraction_of(t0[k]));
                        }
                    } else if one is None {
                        assert(diags_view(d).len() == d.len());
                        assert(diags_view(d)[p] == d[p]@);
                        assert(p == prev.len());
                        assert(t1[j as int] == f);
                        assert(src0.extraction_of(t1[j as int]) == src0.extraction_of(f));
                    }
                }
            }
            j = j + 1;
        }
        assert(fs@.take(fs.len() as int) =~= fs@);
        evaluated
    }

    fn resolve_uncached(&mut self, name: &str, depth: u32) -> (r: ResolvedModel)
        requires
            old(self).inv(),
            old(self).in_progress@.contains(name@),
        ensures
            final(self).inv(),
            resolution_ok(name@, r@),
            extends(old(self).diagnostics@, final(self).diagnostics@),
            final(self).lookups == old(self).lookups,
            old(self).kept_by(&*final(self)),
            fresh_resolution(old(self).source, name, r@, old(self).trials@, final(self).trials@),
            final(self).trials@.len() > old(self).trials@.len() && final(self).trials@.last().base_has_fields
                ==> exists|b: Seq<char>| b != name@ && old(self).source.bases_listed(name).deep_view().contains(b)
                && (#[trigger] final(self).cache.spec_get(b) matches Some(v) && v.fields.len() > 0),
            final(self).trials@.len() > old(self).trials@.len() ==> losers_reported(
                name@,
                final(self).trials@.last(),
                final(self).diagnostics@,
            ),
            fresh_diagnostics(old(self).source, name, final(self).trials@, old(self).diagnostics@, final(self).diagnostics@),
            forall|p: int| old(self).diagnostics@.len() <= p < final(self).diagnostics@.len() ==> (
            #[trigger] final(self).diagnostics@[p])@.model_name == name@ || !old(self).in_progress@.to_set().contains(
                final(self).diagnostics@[p]@.model_name,
            ),
        decreases depth, 1nat,
    {
        let ghost d0 = self.diagnostics@;
        let ghost src0 = self.source;
        let ghost t0 = self.trials@;
        if is_empty_model_type_name(name) {
            return no_data_model(name, None, None);
        }
        let vtable_rva = match self.source.vtable_rva_for_type(name) {
            Some(v) => v,
            None => {
                let d = ModelResolverDiagnostic {
                    model_name: owned(name),
                    function_rva: None,
                    kind: ModelResolverDiagnosticKind::NoInitializer,
                    message: owned("no vtable found for model"),
                };
                self.push_diagnostic(d);
                proof {
                    assert(diags_view(self.diagnostics@) =~= diags_view(d0).push(d@));
                }
                return no_data_model(name, None, warn_for_no_data(name));
            },
        };
        let funcs = self.source.functions_for_vtable(vtable_rva);
        if funcs.len() == 0 {
            let mut m = chars_of("no initializer candidates found for vtable ");
            let h = crate::text::hex_string(vtable_rva as u64);
            append_str(&mut m, h.as_str());
            let d = ModelResolverDiagnostic {
                model_name: owned(name),
                function_rva: None,
                kind: ModelResolverDiagnosticKind::NoInitializer,
                message: string_of(&m),
            };
            self.push_diagnostic(d);
            proof {
                reveal_strlit("no initializer candidates found for vtable ");
                assert(d@.message =~= "no initializer candidates found for vtable "@ + "0x"@ + hex_text(vtable_rva as nat));
                assert(diags_view(self.diagnostics@) =~= diags_view(d0).push(d@));
            }
            return no_data_model(name, None, warn_for_no_data(name));
        }
        let ghost fs = funcs@;
        let (qualified, Ghost(answers)) = qualified_functions(&self.source, &funcs);
        proof {
            lemma_flagged_members(fs, answers);
        }
        let eval_funcs = if qualified.len() == 0 {
            funcs
        } else {
            qualified
        };
        proof {
            assert forall|k: int| 0 <= k < eval_funcs.len() implies fs.contains(#[trigger] eval_funcs@[k]) by {
                if qualified.len() == 0 {
                    assert(fs[k] == eval_funcs@[k]);
                }
            }
        }
        let evaluated = self.evaluate_initializers(name, &eval_funcs);
        let ghost d_eval = self.diagnostics@;
        let ghost cands = evaluated@.map_values(|c: EvaluatedCandidate| c@);
        let ghost extracted = eval_funcs@;
        let ghost d_pre = self.diagnostics@;
        assert(rejections_reported(name@, cands, d_pre));
        let selected = select_best_candidate(name, &evaluated, &mut self.diagnostics);
        let ghost d_tie = self.diagnostics@;
        proof {
            let top = top_candidates(cands, max_score(cands));
            if cands.len() > 0 && top.len() > 1 && conflicting_fields(top) {
                assert(diags_view(d_tie) == diags_view(d_pre).push(tie_diagnostic(name@, top)));
                assert(diags_view(d_tie).len() == d_tie.len());
                assert(d_tie.len() == d_pre.len() + 1);
                assert(diags_view(d_tie)[d_pre.len() as int] == d_tie[d_pre.len() as int]@);
                assert(d_tie[d_pre.len() as int]@ == tie_diagnostic(name@, top));
            } else {
                assert(diags_view(d_tie).len() == d_tie.len());
                assert(diags_view(d_tie).len() == diags_view(d_pre).len());
            }
            assert forall|p: int| d_pre.len() <= p < d_tie.len() implies (#[trigger] d_tie[p])@.model_name == name@
                && d_tie[p]@.kind == ModelResolverDiagnosticKind::ConflictingInitializerCandidates by {
                assert(p == d_pre.len());
            }
        }
        let si = match selected {
            Some(si) => si,
            None => {
                proof {
                    assert(cands.len() == 0);
                    assert forall|p: int| d_eval.len() <= p < self.diagnostics@.len() implies name_diag_ok(
                        src0,
                        name@,
                        extracted,
                        (#[trigger] self.diagnostics@[p])@,
                    ) by {
                        assert(self.diagnostics@[p] == d_tie[p]);
                    }
                    lemma_errors_extend(src0, name@, extracted, d0.len() as int, d_eval, self.diagnostics@);
                    assert forall|p: int| d0.len() <= p < self.diagnostics@.len() implies (
                    #[trigger] self.diagnostics@[p])@.model_name == name@ by {
                        if p < d_eval.len() {
                            assert(self.diagnostics@[p] == d_eval[p]);
                        }
                    }
                    self.trials@ = self.trials@.push(
                        TrialShape { model: name@, qualified: answers, extracted, candidates: cands, base_has_fields: false },
                    );
                }
                return no_data_model(name, None, warn_for_no_data(name));
            },
        };
        let selected_rva = evaluated[si].function_rva;
        let fields = copy_fields(&evaluated[si].accepted_fields);
        let mut k: usize = 0;
        while k < evaluated.len()
            invariant
                k <= evaluated.len(),
                si < evaluated.len(),
                selected_rva == evaluated@[si as int].function_rva,
                cands == evaluated@.map_values(|c: EvaluatedCandidate| c@),
                extends(d0, self.diagnostics@),
                extends(d_tie, self.diagnostics@),
                self.inv(),
                self.lookups == old(self).lookups,
                old(self).kept_by(&*self),
                self.trials == old(self).trials,
                self.origin == old(self).origin,
                forall|q: int| 0 <= q < k && cands[q].function_rva != selected_rva ==> exists|p: int|
                    0 <= p < self.diagnostics@.len() && (#[trigger] self.diagnostics@[p])@ == (DiagShape {
                        model_name: name@,
                        function_rva: Some(cands[q].function_rva),
                        kind: ModelResolverDiagnosticKind::RejectedInitializerCandidate,
                        message: losing_candidate_message(selected_rva, cands[q]),
                    }),
                forall|p: int| d_tie.len() <= p < self.diagnostics@.len() ==> (#[trigger] self.diagnostics@[p])@.model_name
                    == name@ && self.diagnostics@[p]@.kind == ModelResolverDiagnosticKind::RejectedInitializerCandidate,
            decreases evaluated.len() - k,
        {
            if evaluated[k].function_rva != selected_rva {
                let d = losing_candidate_diagnostic(name, selected_rva, &evaluated[k]);
                let ghost prev = self.diagnostics@;
                self.push_diagnostic(d);
                proof {
                    assert(cands[k as int] == evaluated@[k as int]@);
                    assert(self.diagnostics@[prev.len() as int] == d);
                    assert forall|p: int| d_tie.len() <= p < self.diagnostics@.len() implies (#[trigger] self.diagnostics@[p])@.model_name
                        == name@ && self.diagnostics@[p]@.kind == ModelResolverDiagnosticKind::RejectedInitializerCandidate by {
                        if p < prev.len() {
                            assert(self.diagnostics@[p] == prev[p]);
                        }
                    }
                    assert forall|q: int| 0 <= q < k && cands[q].function_rva != selected_rva implies exists|p: int|
                        0 <= p < self.diagnostics@.len() && (#[trigger] self.diagnostics@[p])@ == (DiagShape {
                            model_name: name@,
                            function_rva: Some(cands[q].function_rva),
                            kind: ModelResolverDiagnosticKind::RejectedInitializerCandidate,
                            message: losing_candidate_message(selected_rva, cands[q]),
                        }) by {
                        let p = choose|p: int| 0 <= p < prev.len() && (#[trigger] prev[p])@ == (DiagShape {
                            model_name: name@,
                            function_rva: Some(cands[q].function_rva),
                            kind: ModelResolverDiagnosticKind::RejectedInitializerCandidate,
                            message: losing_candidate_message(selected_rva, cands[q]),
                        });
                        assert(self.diagnostics@[p] == prev[p]);
                    }
                }
            }
            k = k + 1;
        }
        let ghost d_losers = self.diagnostics@;
        let ghost ip = self.in_progress@.to_set();
        let ghost src_b = self.source;
        let base_has_fields = if fields.len() == 0 {
            self.has_non_empty_base_fields(name, depth)
        } else {
            false
        };
        let r = resolution_from_choice(name, selected_rva, fields, base_has_fields);
        proof {
            assert(ip == old(self).in_progress@.to_set());
            assert(ip.contains(name@));
            assert(extends(d_losers, self.diagnostics@));
            assert forall|p: int| d_eval.len() <= p < self.diagnostics@.len() implies name_diag_ok(
                src0,
                name@,
                extracted,
                (#[trigger] self.diagnostics@[p])@,
            ) && (self.diagnostics@[p]@.model_name == name@ || !ip.contains(self.diagnostics@[p]@.model_name)) by {
                if p < d_tie.len() {
                    assert(self.diagnostics@[p] == d_tie[p]);
                } else if p < d_losers.len() {
                    assert(self.diagnostics@[p] == d_losers[p]);
                } else {
                    assert(!ip.contains(self.diagnostics@[p]@.model_name));
                }
            }
            assert(extends(d_eval, self.diagnostics@)) by {
                assert forall|q: int| 0 <= q < d_eval.len() implies #[trigger] self.diagnostics@[q] == d_eval[q] by {
                    assert(d_tie[q] == d_pre[q]);
                }
            }
            lemma_errors_extend(src0, name@, extracted, d0.len() as int, d_eval, self.diagnostics@);
            assert forall|p: int| d0.len() <= p < self.diagnostics@.len() implies (
            #[trigger] self.diagnostics@[p])@.model_name == name@ || !ip.contains(self.diagnostics@[p]@.model_name) by {
                if p < d_eval.len() {
                    assert(self.diagnostics@[p] == d_eval[p]);
                }
            }
            let t = TrialShape { model: name@, qualified: answers, extracted, candidates: cands, base_has_fields };
            let prev = self.trials@;
            self.trials@ = self.trials@.push(t);
            assert(extends(old(self).trials@, self.trials@)) by {
                assert forall|q: int| 0 <= q < old(self).trials@.len() implies #[trigger] self.trials@[q]
                    == old(self).trials@[q] by {
                    assert(prev[q] == old(self).trials@[q]);
                }
            }
            assert(cands[si as int] == evaluated@[si as int]@);
            assert(is_selected(cands, si as int));
            assert(trial_resolution(name@, t, r@));
            assert(extends(d_pre, self.diagnostics@)) by {
                assert forall|q: int| 0 <= q < d_pre.len() implies #[trigger] self.diagnostics@[q] == d_pre[q] by {
                    assert(d_tie[q] == d_pre[q]);
                }
            }
            lemma_rejections_kept(name@, cands, d_pre, self.diagnostics@);
            assert(losers_reported(name@, t, self.diagnostics@)) by {
                let top = top_candidates(cands, max_score(cands));
                if cands.len() > 0 && top.len() > 1 && conflicting_fields(top) {
                    assert(self.diagnostics@[d_pre.len() as int] == d_tie[d_pre.len() as int]);
                    assert(self.diagnostics@[d_pre.len() as int]@ == tie_diagnostic(name@, top));
                }
                assert forall|i: int, q: int| is_selected(t.candidates, i) && 0 <= q < t.candidates.len()
                    && t.candidates[q].function_rva != t.candidates[i].function_rva implies exists|p: int|
                    0 <= p < self.diagnostics@.len() && (#[trigger] self.diagnostics@[p])@ == (DiagShape {
                        model_name: name@,
                        function_rva: Some(t.candidates[q].function_rva),
                        kind: ModelResolverDiagnosticKind::RejectedInitializerCandidate,
                        message: losing_candidate_message(t.candidates[i].function_rva, t.candidates[q]),
                    }) by {
                    lemma_selected_unique(cands, i, si as int);
                    let p = choose|p: int| 0 <= p < d_losers.len() && (#[trigger] d_losers[p])@ == (DiagShape {
                        model_name: name@,
                        function_rva: Some(cands[q].function_rva),
                        kind: ModelResolverDiagnosticKind::RejectedInitializerCandidate,
                        message: losing_candidate_message(selected_rva, cands[q]),
                    });
                    assert(self.diagnostics@[p] == d_losers[p]);
                }
            }
            if base_has_fields {
                let bc = self.base_checks@.last();
                let k = choose|k: int| 0 <= k < bc.len() && #[trigger] bc[k].1 && (self.cache.spec_get(bc[k].0) matches Some(v) && v.fields.len() > 0);
                assert(self.cache.spec_get(bc[k].0) matches Some(v) && v.fields.len() > 0);
                assert(src_b.bases_listed(name).deep_view()[k] == bc[k].0);
                assert(old(self).source.bases_listed(name).deep_view().contains(bc[k].0));
            }
        }
        r
    }

    /// Whether a base model of `name` resolves with fields. The bases the
    /// source gives for `name` are recorded as the last entry of
    /// `base_checks`, each with whether it was resolved: a base other than
    /// `name`, not under way, for which the source reports a vtable, while
    /// `depth` allows; the result tells whether one resolved has fields in
    /// the cache.
    fn has_non_empty_base_fields(&mut self, name: &str, depth: u32) -> (r: bool)
        requires
            old(self).inv(),
        ensures
            final(self).inv(),
            extends(old(self).diagnostics@, final(self).diagnostics@),
            final(self).lookups == old(self).lookups,
            old(self).kept_by(&*final(self)),
            final(self).base_checks@.len() > old(self).base_checks@.len(),
            forall|k: int| 0 <= k < final(self).base_checks@.last().len() ==> #[trigger] final(self).base_checks@.last()[k].1
                ==> final(self).base_checks@.last()[k].0 != name@ && !old(self).in_progress@.contains(
                final(self).base_checks@.last()[k].0,
            ) && depth > 0 && final(self).cache.spec_get(final(self).base_checks@.last()[k].0) is Some,
            r == exists|k: int| 0 <= k < final(self).base_checks@.last().len() && #[trigger] final(self).base_checks@.last()[k].1
                && (final(self).cache.spec_get(final(self).base_checks@.last()[k].0) matches Some(v) && v.fields.len() > 0),
            final(self).base_checks@.last().len() == old(self).source.bases_listed(name).deep_view().len(),
            forall|k: int| 0 <= k < final(self).base_checks@.last().len() ==> (#[trigger] final(self).base_checks@.last()[k]).0
                == old(self).source.bases_listed(name).deep_view()[k],
            foreign_diags(old(self).in_progress@.to_set(), old(self).diagnostics@.len() as int, final(self).diagnostics@),
        decreases depth, 0nat,
    {
        let ghost d0 = self.diagnostics@;
        let base_names = self.source.base_models_of(name);
        let ghost mut mine: Seq<(Seq<char>, bool)> = Seq::new(base_names.len() as nat, |k: int| (base_names@[k]@, false));
        let mut i: usize = 0;
        while i < base_names.len()
            invariant
                i <= base_names.len(),
                extends(d0, self.diagnostics@),
                self.inv(),
                self.lookups == old(self).lookups,
                d0 == old(self).diagnostics@,
                old(self).kept_by(&*self),
                foreign_diags(old(self).in_progress@.to_set(), d0.len() as int, self.diagnostics@),
                mine.len() == base_names.len(),
                base_names.deep_view() == old(self).source.bases_listed(name).deep_view(),
                forall|k: int| 0 <= k < base_names.len() ==> (#[trigger] mine[k]).0 == base_names@[k]@,
                forall|k: int| i <= k < base_names.len() ==> !(#[trigger] mine[k]).1,
                forall|k: int| 0 <= k < i ==> #[trigger] mine[k].1 ==> mine[k].0 != name@ && !old(self).in_progress@.contains(
                    mine[k].0,
                ) && depth > 0 && (self.cache.spec_get(mine[k].0) matches Some(v) && v.fields.len() == 0),
            decreases base_names.len() - i,
        {
            let base_name = &base_names[i];
            if !str_eq(base_name.as_str(), name) && !self.in_progress.contains(base_name.as_str())
                && self.source.vtable_rva_for_type(base_name.as_str()).is_some() && depth > 0 {
                let ghost before = *self;
                proof {
                    assert(!old(self).in_progress@.contains(base_name@)) by {
                        assert(old(self).in_progress@.to_set() == self.in_progress@.to_set());
                        if old(self).in_progress@.contains(base_name@) {
                            assert(old(self).in_progress@.to_set().contains(base_name@));
                        }
                    }
                    mine = mine.update(i as int, (base_name@, true));
                }
                let base_model = self.resolve_at(base_name.as_str(), depth - 1);
                proof {
                    assert(before.in_progress@.to_set() == old(self).in_progress@.to_set());
                    assert forall|p: int| d0.len() <= p < self.diagnostics@.len() implies !old(self).in_progress@.to_set().contains(
                        (#[trigger] self.diagnostics@[p])@.model_name,
                    ) by {
                        if p < before.diagnostics@.len() {
                            assert(self.diagnostics@[p] == before.diagnostics@[p]);
                        }
                    }
                    assert forall|k: Seq<char>| #[trigger] old(self).cache.spec_get(k) is Some implies self.cache.spec_get(k)
                        == old(self).cache.spec_get(k) by {
                        assert(before.cache.spec_get(k) == old(self).cache.spec_get(k));
                    }
                    assert(self.in_progress@.to_set() == old(self).in_progress@.to_set());
                    assert(extends(old(self).base_checks@, self.base_checks@)) by {
                        assert forall|q: int| 0 <= q < old(self).base_checks@.len() implies #[trigger] self.base_checks@[q]
                            == old(self).base_checks@[q] by {
                            assert(before.base_checks@[q] == old(self).base_checks@[q]);
                        }
                    }
                    assert forall|k: int| 0 <= k < i implies #[trigger] mine[k].1 ==> mine[k].0 != name@
                        && !old(self).in_progress@.contains(mine[k].0) && depth > 0 && (self.cache.spec_get(mine[k].0) matches Some(
                        v,
                    ) && v.fields.len() == 0) by {
                        if mine[k].1 {
                            assert(before.cache.spec_get(mine[k].0) is Some);
                        }
                    }
                    assert(base_model@.fields.len() == base_model.fields.len());
                }
                if base_model.fields.len() > 0 {
                    proof {
                        let prev = self.base_checks@;
                        self.base_checks@ = self.base_checks@.push(mine);
                        assert(mine[i as int].1);
                        assert(self.cache.spec_get(mine[i as int].0) matches Some(v) && v.fields.len() > 0);
                        assert(extends(old(self).base_checks@, self.base_checks@)) by {
                            assert forall|q: int| 0 <= q < old(self).base_checks@.len() implies #[trigger] self.base_checks@[q]
                                == old(self).base_checks@[q] by {
                                assert(prev[q] == old(self).base_checks@[q]);
                            }
                        }
                        assert forall|k: int| 0 <= k < mine.len() implies #[trigger] mine[k].1 ==> mine[k].0 != name@
                            && !old(self).in_progress@.contains(mine[k].0) && depth > 0 && self.cache.spec_get(mine[k].0)
                            is Some by {}
                    }
                    return true;
                }
            }
            i = i + 1;
        }
        proof {
            let prev = self.base_checks@;
            self.base_checks@ = self.base_checks@.push(mine);
            assert(extends(old(self).base_checks@, self.base_checks@)) by {
                assert forall|q: int| 0 <= q < old(self).base_checks@.len() implies #[trigger] self.base_checks@[q]
                    == old(self).base_checks@[q] by {
                    assert(prev[q] == old(self).base_checks@[q]);
                }
            }
            assert forall|k: int| 0 <= k < mine.len() && #[trigger] mine[k].1 implies !(self.cache.spec_get(mine[k].0) matches Some(
                v,
            ) && v.fields.len() > 0) by {}
        }
        false
    }
}

impl<S: ModelResolutionSource> TypeEntryResolver for ModelResolver<S> {
    open spec fn ready(&self) -> bool {
        &&& self.wf()
        &&& self.lookups_resolved()
    }

    closed spec fn lookups(&self) -> Seq<(Seq<char>, EntryShape)> {
        self.lookups@
    }

    open spec fn answers(&self, name: Seq<char>, e: EntryShape) -> bool {
        resolvable(self.origin(), name, e)
    }

    fn find_type_entry(&mut self, name: &str) -> (r: TypeDescriptorEntry)
        ensures
            resolution_ok(name@, r@),
            extends(old(self).diagnostics_view(), final(self).diagnostics_view()),
    {
        let ghost before = *self;
        let resolved = self.resolve_model(name);
        let r = type_entry_from_resolved(resolved);
        proof {
            self.lookups@ = self.lookups@.push((name@, r@));
            assert forall|k: int| 0 <= k < self.lookups@.len() implies self.resolved(#[trigger] self.lookups@[k].0)
                == Some(self.lookups@[k].1) by {
                if k < before.lookups@.len() {
                    assert(before.resolved(before.lookups@[k].0) == Some(before.lookups@[k].1));
                    assert(before.cache.spec_get(before.lookups@[k].0) is Some);
                }
            }
        }
        r
    }
}

} // verus!
