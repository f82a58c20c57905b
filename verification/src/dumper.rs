//! Assembly of the protocol dump: packets, events, polymorphic model groups and
//! the catalogue of standalone models.
use vstd::prelude::*;
use crate::extractor::{ExtractedField, FieldShape, fields_view, field_names, copy_fields, copy_opt_string};
use crate::model_resolver::{is_empty_model_spec, is_empty_model_type_name, ResolvedModel};
use crate::text::{chars_of, eq_str, starts_with_str, ends_with_str, has_prefix, has_suffix, string_of, str_eq};
use crate::type_parser::{polymorphic_base_spec, polymorphic_base_chars, TypeShape};
use crate::matching::{regex_matches, regex_find_all, regex_byte_matches, regex_find_all_bytes};
use crate::names::{NameMap, NameSet, sorted_names, strictly_sorted, lemma_sorted_names, key_index, lemma_key_index_push, lemma_key_index_found};
use crate::rtti::{ClassHierarchy, derived_in, vec_contains_str};

verus! {

/// Version information of the dumped binary.
#[derive(Debug, Clone, PartialEq, Eq)]
pub struct AppVersion {
    pub version: String,
    pub build: u32,
}

/// Options of a dump.
#[derive(Debug, Clone)]
pub struct DumperOptions {
    pub version: AppVersion,
}

/// A resolved type: where its initializer lives, its fields and any warning.
#[derive(Debug, Clone)]
pub struct TypeDescriptorEntry {
    pub offset: Option<String>,
    pub name: String,
    pub fields: Vec<ExtractedField>,
    pub warn: Option<String>,
}

/// The abstract value of a type or model entry.
pub struct EntryShape {
    pub name: Seq<char>,
    pub offset: Option<Seq<char>>,
    pub fields: Seq<FieldShape>,
    pub warn: Option<Seq<char>>,
}

impl View for TypeDescriptorEntry {
    type V = EntryShape;

    open spec fn view(&self) -> EntryShape {
        EntryShape {
            name: self.name@,
            offset: self.offset.deep_view(),
            fields: fields_view(self.fields@),
            warn: self.warn.deep_view(),
        }
    }
}

/// A request/response packet.
#[derive(Debug, Clone)]
pub struct PacketEntry {
    pub opcode: u32,
    pub request: TypeDescriptorEntry,
    pub response: TypeDescriptorEntry,
}

/// A server event or special packet.
#[derive(Debug, Clone)]
pub struct EventEntry {
    pub opcode: u32,
    pub kind: Option<String>,
    pub name: Option<String>,
    pub base_kind: Option<String>,
    pub offset: Option<String>,
    pub request: Option<TypeDescriptorEntry>,
    pub response: Option<TypeDescriptorEntry>,
    pub warn: Option<String>,
}

/// A standalone model of the catalogue.
#[derive(Debug, Clone)]
pub struct ModelEntry {
    pub name: String,
    pub offset: Option<String>,
    pub fields: Vec<ExtractedField>,
    pub warn: Option<String>,
}

impl View for ModelEntry {
    type V = EntryShape;

    open spec fn view(&self) -> EntryShape {
        EntryShape {
            name: self.name@,
            offset: self.offset.deep_view(),
            fields: fields_view(self.fields@),
            warn: self.warn.deep_view(),
        }
    }
}

/// The discriminator field of a polymorphic group.
#[derive(Debug, Clone, PartialEq, Eq)]
pub struct PolymorphicDiscriminator {
    pub field: String,
    pub value_type: String,
}

/// The base class of a polymorphic group.
#[derive(Debug, Clone, PartialEq, Eq)]
pub struct PolymorphicBase {
    pub offset: Option<String>,
    pub fields: Vec<ExtractedField>,
}

/// A concrete class of a polymorphic group: its own fields, the fields it has
/// together with the base, and its discriminator tag when one is known.
#[derive(Debug, Clone, PartialEq, Eq)]
pub struct PolymorphicVariant {
    pub name: String,
    pub offset: Option<String>,
    pub fields: Vec<ExtractedField>,
    pub all_fields: Vec<ExtractedField>,
    pub tag: Option<String>,
}

/// The abstract value of a [`PolymorphicVariant`].
pub struct VariantShape {
    pub name: Seq<char>,
    pub offset: Option<Seq<char>>,
    pub fields: Seq<FieldShape>,
    pub all_fields: Seq<FieldShape>,
    pub tag: Option<Seq<char>>,
}

impl View for PolymorphicVariant {
    type V = VariantShape;

    open spec fn view(&self) -> VariantShape {
        VariantShape {
            name: self.name@,
            offset: self.offset.deep_view(),
            fields: fields_view(self.fields@),
            all_fields: fields_view(self.all_fields@),
            tag: self.tag.deep_view(),
        }
    }
}

/// The views of a list of variants.
pub open spec fn variants_view(s: Seq<PolymorphicVariant>) -> Seq<VariantShape> {
    s.map_values(|v: PolymorphicVariant| v@)
}

/// A polymorphic group: a base class, how it was discovered, its
/// discriminator, the variants that travel on the wire and all RTTI
/// subclasses.
#[derive(Debug, Clone, PartialEq, Eq)]
pub struct PolymorphicModelEntry {
    pub name: String,
    pub root_sources: Vec<String>,
    pub discriminator: Option<PolymorphicDiscriminator>,
    pub base: PolymorphicBase,
    pub variants: Vec<PolymorphicVariant>,
    pub rtti_subclasses: Vec<PolymorphicVariant>,
}

/// Another name for a polymorphic group.
pub type PolymorphicModelGroup = PolymorphicModelEntry;

/// The complete dump. `error` describes the server's error payload, as
/// pairs of a field name and its type.
#[derive(Debug, Clone)]
pub struct DumpResult {
    pub options: AppVersion,
    pub packets: Vec<PacketEntry>,
    pub events: Vec<EventEntry>,
    pub models: Vec<ModelEntry>,
    pub polymorphic_models: Vec<PolymorphicModelEntry>,
    pub string_enums: Vec<String>,
    pub error: Vec<(String, String)>,
}

/// The pairs of strings, as text.
pub open spec fn pairs_view(v: Seq<(String, String)>) -> Seq<(Seq<char>, Seq<char>)> {
    v.map_values(|p: (String, String)| (p.0@, p.1@))
}

/// The server's error payload that every dump describes: the fields
/// `error`, `localizedMessage`, `message` and `title`, each a `std::string`.
pub open spec fn error_payload_spec() -> Seq<(Seq<char>, Seq<char>)> {
    seq![
        ("error"@, "std::string"@),
        ("localizedMessage"@, "std::string"@),
        ("message"@, "std::string"@),
        ("title"@, "std::string"@),
    ]
}

/// The server's error payload (see [`error_payload_spec`]).
pub fn default_error_payload() -> (r: Vec<(String, String)>)
    ensures
        pairs_view(r@) == error_payload_spec(),
{
    let mut r: Vec<(String, String)> = Vec::new();
    r.push((crate::text::owned("error"), crate::text::owned("std::string")));
    r.push((crate::text::owned("localizedMessage"), crate::text::owned("std::string")));
    r.push((crate::text::owned("message"), crate::text::owned("std::string")));
    r.push((crate::text::owned("title"), crate::text::owned("std::string")));
    assert(pairs_view(r@) =~= error_payload_spec());
    r
}

/// How a polymorphic root was discovered.
#[derive(Debug, Clone, Copy, PartialEq, Eq, PartialOrd, Ord)]
pub enum RootSource {
    ProtocolField,
    RttiHeuristic,
}

impl RootSource {
    /// The name used in the dump.
    pub fn as_str(self) -> (r: &'static str)
        ensures
            r@ == root_source_name(self),
    {
        match self {
            RootSource::ProtocolField => "protocol_field",
            RootSource::RttiHeuristic => "rtti_heuristic",
        }
    }
}

/// The dump name of a root source.
pub open spec fn root_source_name(s: RootSource) -> Seq<char> {
    match s {
        RootSource::ProtocolField => "protocol_field"@,
        RootSource::RttiHeuristic => "rtti_heuristic"@,
    }
}

/// The set of sources through which a root was discovered (ordered as
/// `RootSource` is: protocol field first).
#[derive(Debug, Clone, Copy, PartialEq, Eq, Default)]
pub struct RootSources {
    pub protocol_field: bool,
    pub rtti_heuristic: bool,
}

impl RootSources {
    /// Whether `source` is among the sources.
    pub fn contains(&self, source: &RootSource) -> (r: bool)
        ensures
            r == (match *source {
                RootSource::ProtocolField => self.protocol_field,
                RootSource::RttiHeuristic => self.rtti_heuristic,
            }),
    {
        match source {
            RootSource::ProtocolField => self.protocol_field,
            RootSource::RttiHeuristic => self.rtti_heuristic,
        }
    }

    /// The names of the sources, in order.
    pub fn names(&self) -> (r: Vec<String>)
        ensures
            r.deep_view() == source_names(*self),
    {
        let mut v: Vec<String> = Vec::new();
        if self.protocol_field {
            v.push(crate::text::owned(RootSource::ProtocolField.as_str()));
        }
        if self.rtti_heuristic {
            v.push(crate::text::owned(RootSource::RttiHeuristic.as_str()));
        }
        assert(v.deep_view() =~= source_names(*self));
        v
    }
}

/// The dump names of a set of sources, in order.
pub open spec fn source_names(s: RootSources) -> Seq<Seq<char>> {
    (if s.protocol_field {
        seq!["protocol_field"@]
    } else {
        seq![]
    }) + (if s.rtti_heuristic {
        seq!["rtti_heuristic"@]
    } else {
        seq![]
    })
}

// ---------------------------------------------------------------------------
// Fields of polymorphic variants
// ---------------------------------------------------------------------------

/// `acc` followed by those of `local` whose name is not yet taken, in order.
pub open spec fn flatten_fields(acc: Seq<FieldShape>, local: Seq<FieldShape>) -> Seq<FieldShape>
    decreases local.len(),
{
    if local.len() == 0 {
        acc
    } else if field_names(acc).contains(local[0].name) {
        flatten_fields(acc, local.drop_first())
    } else {
        flatten_fields(acc.push(local[0]), local.drop_first())
    }
}

/// Whether a field named `name` is in `fields`.
pub fn has_field_named(fields: &Vec<ExtractedField>, name: &str) -> (r: bool)
    ensures
        r == field_names(fields_view(fields@)).contains(name@),
{
    let mut i: usize = 0;
    while i < fields.len()
        invariant
            i <= fields.len(),
            forall|k: int| 0 <= k < i ==> field_names(fields_view(fields@))[k] != name@,
        decreases fields.len() - i,
    {
        if crate::text::str_eq(fields[i].name.as_str(), name) {
            assert(field_names(fields_view(fields@))[i as int] == name@);
            return true;
        }
        i = i + 1;
    }
    false
}

/// The base fields followed by the local fields whose names the base (or an
/// earlier local field) does not already use: the base wins on duplicates.
pub fn flattened_polymorphic_fields(
    base_fields: &Vec<ExtractedField>,
    local_fields: &Vec<ExtractedField>,
) -> (r: Vec<ExtractedField>)
    ensures
        fields_view(r@) == flatten_fields(fields_view(base_fields@), fields_view(local_fields@)),
{
    let mut fields = copy_fields(base_fields);
    let ghost lv = fields_view(local_fields@);
    let mut i: usize = 0;
    assert(lv.subrange(0, lv.len() as int) =~= lv);
    while i < local_fields.len()
        invariant
            i <= local_fields.len(),
            lv == fields_view(local_fields@),
            flatten_fields(fields_view(fields@), lv.subrange(i as int, lv.len() as int))
                == flatten_fields(fields_view(base_fields@), lv),
        decreases local_fields.len() - i,
    {
        let ghost rest = lv.subrange(i as int, lv.len() as int);
        assert(rest[0] == local_fields[i as int]@);
        assert(rest.drop_first() =~= lv.subrange(i + 1, lv.len() as int));
        if !has_field_named(&fields, local_fields[i].name.as_str()) {
            let f = local_fields[i].duplicate();
            let ghost before = fields@;
            fields.push(f);
            assert(fields_view(fields@) =~= fields_view(before).push(rest[0]));
        }
        i = i + 1;
    }
    fields
}

/// A variant named `name` built from its resolved entry, with all fields
/// flattened over the base's.
pub fn polymorphic_variant_from_entry(
    name: String,
    base_fields: &Vec<ExtractedField>,
    entry: TypeDescriptorEntry,
    tag: Option<String>,
) -> (r: PolymorphicVariant)
    ensures
        r@ == (VariantShape {
            name: name@,
            offset: entry.offset.deep_view(),
            fields: fields_view(entry.fields@),
            all_fields: flatten_fields(fields_view(base_fields@), fields_view(entry.fields@)),
            tag: tag.deep_view(),
        }),
{
    let all_fields = flattened_polymorphic_fields(base_fields, &entry.fields);
    PolymorphicVariant { name, offset: entry.offset, fields: entry.fields, all_fields, tag }
}

/// A special packet's built-in fields take the place of an empty resolution
/// (clearing its warning); a resolution that found fields is kept as it is.
pub fn apply_special_request_fields(entry: TypeDescriptorEntry, fields: &Vec<ExtractedField>) -> (r:
    TypeDescriptorEntry)
    ensures
        r@ == (if entry.fields.len() == 0 && fields.len() > 0 {
            EntryShape { fields: fields_view(fields@), warn: None, ..entry@ }
        } else {
            entry@
        }),
{
    let mut entry = entry;
    if entry.fields.len() == 0 && fields.len() > 0 {
        entry.fields = copy_fields(fields);
        entry.warn = None;
    }
    entry
}

// ---------------------------------------------------------------------------
// Type-name classification
// ---------------------------------------------------------------------------

/// `name` is a primitive or a standard-library type.
pub open spec fn is_builtin_spec(name: Seq<char>) -> bool {
    ||| name == "bool"@ || name == "char"@ || name == "int8_t"@ || name == "uint8_t"@
    ||| name == "int16_t"@ || name == "uint16_t"@ || name == "int32_t"@ || name == "uint32_t"@
    ||| name == "int64_t"@ || name == "uint64_t"@ || name == "int"@ || name == "unsigned int"@
    ||| name == "short"@ || name == "unsigned short"@ || name == "long long"@
    ||| name == "unsigned long long"@ || name == "float"@ || name == "double"@
    ||| name == "std::string"@ || name == "std::string_view"@
    ||| has_prefix(name, "std::"@)
}

/// Whether `name` is a primitive or a standard-library type, which never
/// names a model.
pub fn is_primitive_or_builtin_type(name: &str) -> (r: bool)
    ensures
        r == is_builtin_spec(name@),
{
    let n = chars_of(name);
    eq_str(&n, "bool") || eq_str(&n, "char") || eq_str(&n, "int8_t") || eq_str(&n, "uint8_t")
        || eq_str(&n, "int16_t") || eq_str(&n, "uint16_t") || eq_str(&n, "int32_t") || eq_str(
        &n,
        "uint32_t",
    ) || eq_str(&n, "int64_t") || eq_str(&n, "uint64_t") || eq_str(&n, "int") || eq_str(
        &n,
        "unsigned int",
    ) || eq_str(&n, "short") || eq_str(&n, "unsigned short") || eq_str(&n, "long long")
        || eq_str(&n, "unsigned long long") || eq_str(&n, "float") || eq_str(&n, "double")
        || eq_str(&n, "std::string") || eq_str(&n, "std::string_view") || starts_with_str(
        &n,
        "std::",
    )
}

/// The polymorphic base a field refers to: its recorded base, else the first
/// `Polymorphic<...>` found in its full type, name, map value or map key.
pub open spec fn field_polymorphic_base(f: FieldShape) -> Option<Seq<char>> {
    let t = f.field_type;
    if t.polymorphic_base is Some {
        t.polymorphic_base
    } else if polymorphic_base_spec(t.full) is Some {
        polymorphic_base_spec(t.full)
    } else if t.name is Some && polymorphic_base_spec(t.name->0) is Some {
        polymorphic_base_spec(t.name->0)
    } else if t.map_value is Some && polymorphic_base_spec(t.map_value->0) is Some {
        polymorphic_base_spec(t.map_value->0)
    } else if t.map_key is Some {
        polymorphic_base_spec(t.map_key->0)
    } else {
        None
    }
}

fn base_of_opt(s: &Option<String>) -> (r: Option<Vec<char>>)
    ensures
        r.deep_view() == (match s.deep_view() {
            Some(x) => polymorphic_base_spec(x),
            None => None,
        }),
{
    match s {
        Some(x) => {
            let cs = chars_of(x.as_str());
            polymorphic_base_chars(&cs)
        },
        None => None,
    }
}

/// The polymorphic base class a field refers to, if any.
pub fn extract_polymorphic_base_from_field(field: &ExtractedField) -> (r: Option<String>)
    ensures
        r.deep_view() == field_polymorphic_base(field@),
{
    let t = &field.field_type;
    if let Some(base) = &t.polymorphic_base {
        return Some(base.clone());
    }
    let full = chars_of(t.full.as_str());
    let from_full = polymorphic_base_chars(&full);
    if from_full.is_some() {
        return crate::text::opt_string_of(&from_full);
    }
    let from_name = base_of_opt(&t.name);
    if from_name.is_some() {
        return crate::text::opt_string_of(&from_name);
    }
    let from_value = base_of_opt(&t.map_value);
    if from_value.is_some() {
        return crate::text::opt_string_of(&from_value);
    }
    let from_key = base_of_opt(&t.map_key);
    crate::text::opt_string_of(&from_key)
}

// ---------------------------------------------------------------------------
// Models referenced by a field
// ---------------------------------------------------------------------------

/// The pattern of a reference to a model of the `Api::OneMe` namespace.
pub const API_REF_PATTERN: &'static str = "Api::OneMe::([A-Za-z0-9_:]+)";

/// `o` as a sequence of zero or one element.
pub open spec fn opt_seq(o: Option<Seq<char>>) -> Seq<Seq<char>> {
    match o {
        Some(x) => seq![x],
        None => seq![],
    }
}

/// The type texts of a field in which model references are sought: the full
/// type, then the name, map key, map value and polymorphic base present.
pub open spec fn type_texts(t: TypeShape) -> Seq<Seq<char>> {
    seq![t.full] + opt_seq(t.name) + opt_seq(t.map_key) + opt_seq(t.map_value) + opt_seq(
        t.polymorphic_base,
    )
}

/// The model references found in `s` (none where the pattern fails to
/// compile).
pub open spec fn api_refs_in(s: Seq<char>) -> Seq<Seq<char>> {
    match regex_matches(API_REF_PATTERN@, s) {
        Some(m) => m,
        None => seq![],
    }
}

/// The model references found in each of `texts`, in order.
pub open spec fn api_refs_all(texts: Seq<Seq<char>>) -> Seq<Seq<char>>
    decreases texts.len(),
{
    if texts.len() == 0 {
        seq![]
    } else {
        api_refs_all(texts.drop_last()) + api_refs_in(texts.last())
    }
}

/// Those of `names` that may name a model: neither a primitive or
/// standard-library type nor a placeholder model.
pub open spec fn model_names_only(names: Seq<Seq<char>>) -> Seq<Seq<char>>
    decreases names.len(),
{
    if names.len() == 0 {
        seq![]
    } else if !is_builtin_spec(names.last()) && !is_empty_model_spec(names.last()) {
        model_names_only(names.drop_last()).push(names.last())
    } else {
        model_names_only(names.drop_last())
    }
}

/// The models a field refers to, given the references `found` in its type
/// texts: those references when there are any, otherwise its type name, map
/// value and polymorphic base where they may name a model.
pub open spec fn refs_given_matches(t: TypeShape, found: Seq<Seq<char>>) -> Seq<Seq<char>> {
    if found.len() > 0 {
        found
    } else {
        model_names_only(opt_seq(t.name) + opt_seq(t.map_value) + opt_seq(t.polymorphic_base))
    }
}

/// The models a field refers to.
pub open spec fn model_refs(f: FieldShape) -> Seq<Seq<char>> {
    refs_given_matches(f.field_type, api_refs_all(type_texts(f.field_type)))
}

fn push_if_model_name(queue: &mut Vec<String>, name: &Option<String>, Ghost(acc): Ghost<Seq<Seq<char>>>)
    requires
        old(queue).deep_view() == acc,
    ensures
        final(queue).deep_view() == acc + model_names_only(opt_seq(name.deep_view())),
{
    if let Some(n) = name {
        let ghost s = opt_seq(name.deep_view());
        assert(s.drop_last() =~= Seq::<Seq<char>>::empty());
        assert(s.last() == n@);
        assert(model_names_only(s.drop_last()) =~= Seq::<Seq<char>>::empty());
        if !is_primitive_or_builtin_type(n.as_str()) && !is_empty_model_type_name(n.as_str()) {
            let ghost prev = queue.deep_view();
            queue.push(n.clone());
            assert(queue.deep_view() =~= prev.push(n@));
            assert(model_names_only(s) =~= seq![n@]);
        } else {
            assert(model_names_only(s) =~= Seq::<Seq<char>>::empty());
        }
    }
    assert(acc + Seq::<Seq<char>>::empty() =~= acc);
}

proof fn lemma_model_names_only_append(a: Seq<Seq<char>>, b: Seq<Seq<char>>)
    ensures
        model_names_only(a + b) == model_names_only(a) + model_names_only(b),
    decreases b.len(),
{
    if b.len() == 0 {
        assert(a + b =~= a);
        assert(model_names_only(a) + model_names_only(b) =~= model_names_only(a));
    } else {
        assert((a + b).drop_last() =~= a + b.drop_last());
        assert((a + b).last() == b.last());
        lemma_model_names_only_append(a, b.drop_last());
        if !is_builtin_spec(b.last()) && !is_empty_model_spec(b.last()) {
            assert(model_names_only(a) + model_names_only(b) =~= (model_names_only(a)
                + model_names_only(b.drop_last())).push(b.last()));
        }
    }
}

/// Queues the models a field refers to, given the references `found` in its
/// type texts (see [`refs_given_matches`]).
pub fn push_model_refs_given_matches(field: &ExtractedField, found: Vec<String>, queue: &mut Vec<String>)
    ensures
        final(queue).deep_view() == old(queue).deep_view() + refs_given_matches(
            field@.field_type,
            found.deep_view(),
        ),
{
    let ghost start = queue.deep_view();
    let t = &field.field_type;
    if found.len() > 0 {
        let mut i: usize = 0;
        while i < found.len()
            invariant
                i <= found.len(),
                queue.deep_view() == start + found.deep_view().take(i as int),
            decreases found.len() - i,
        {
            let ghost prev = queue.deep_view();
            queue.push(found[i].clone());
            assert(found.deep_view().take(i + 1) =~= found.deep_view().take(i as int).push(found[i as int]@));
            assert(queue.deep_view() =~= prev.push(found[i as int]@));
            i = i + 1;
        }
        assert(found.deep_view().take(found.len() as int) =~= found.deep_view());
    } else {
        let ghost a = opt_seq(t.name.deep_view());
        let ghost b = opt_seq(t.map_value.deep_view());
        let ghost c = opt_seq(t.polymorphic_base.deep_view());
        proof {
            lemma_model_names_only_append(a, b);
            lemma_model_names_only_append(a + b, c);
        }
        push_if_model_name(queue, &t.name, Ghost(start));
        push_if_model_name(queue, &t.map_value, Ghost(start + model_names_only(a)));
        push_if_model_name(queue, &t.polymorphic_base, Ghost(start + model_names_only(a) + model_names_only(b)));
        assert(queue.deep_view() =~= start + model_names_only(a + b + c));
    }
}

fn append_api_refs(found: &mut Vec<String>, text: &str, Ghost(texts): Ghost<Seq<Seq<char>>>)
    requires
        old(found).deep_view() == api_refs_all(texts),
    ensures
        final(found).deep_view() == api_refs_all(texts.push(text@)),
{
    let ghost all = texts.push(text@);
    assert(all.drop_last() =~= texts);
    let m = regex_find_all(API_REF_PATTERN, text);
    if let Some(v) = m {
        let mut i: usize = 0;
        let ghost start = found.deep_view();
        while i < v.len()
            invariant
                i <= v.len(),
                found.deep_view() == start + v.deep_view().take(i as int),
            decreases v.len() - i,
        {
            let ghost prev = found.deep_view();
            found.push(v[i].clone());
            assert(v.deep_view().take(i + 1) =~= v.deep_view().take(i as int).push(v[i as int]@));
            assert(found.deep_view() =~= prev.push(v[i as int]@));
            i = i + 1;
        }
        assert(v.deep_view().take(v.len() as int) =~= v.deep_view());
    } else {
        assert(api_refs_in(text@) =~= Seq::<Seq<char>>::empty());
        assert(found.deep_view() =~= found.deep_view() + Seq::<Seq<char>>::empty());
    }
}

fn append_api_refs_opt(found: &mut Vec<String>, text: &Option<String>, Ghost(texts): Ghost<Seq<Seq<char>>>)
    requires
        old(found).deep_view() == api_refs_all(texts),
    ensures
        final(found).deep_view() == api_refs_all(texts + opt_seq(text.deep_view())),
{
    match text {
        Some(t) => {
            assert(texts + opt_seq(text.deep_view()) =~= texts.push(t@));
            append_api_refs(found, t.as_str(), Ghost(texts));
        },
        None => {
            assert(texts + opt_seq(text.deep_view()) =~= texts);
        },
    }
}

/// Queues the models a field refers to: every model reference found in its
/// type texts, or else its type name, map value and polymorphic base where
/// they may name a model.
pub fn collect_model_refs_from_field(field: &ExtractedField, queue: &mut Vec<String>)
    ensures
        final(queue).deep_view() == old(queue).deep_view() + model_refs(field@),
{
    let t = &field.field_type;
    let mut found: Vec<String> = Vec::new();
    let ghost e = Seq::<Seq<char>>::empty();
    assert(found.deep_view() =~= api_refs_all(e));
    append_api_refs(&mut found, t.full.as_str(), Ghost(e));
    let ghost t1 = e.push(t.full@);
    append_api_refs_opt(&mut found, &t.name, Ghost(t1));
    let ghost t2 = t1 + opt_seq(t.name.deep_view());
    append_api_refs_opt(&mut found, &t.map_key, Ghost(t2));
    let ghost t3 = t2 + opt_seq(t.map_key.deep_view());
    append_api_refs_opt(&mut found, &t.map_value, Ghost(t3));
    let ghost t4 = t3 + opt_seq(t.map_value.deep_view());
    append_api_refs_opt(&mut found, &t.polymorphic_base, Ghost(t4));
    assert(t4 + opt_seq(t.polymorphic_base.deep_view()) =~= type_texts(field@.field_type));
    push_model_refs_given_matches(field, found, queue);
}

// ---------------------------------------------------------------------------
// Walks over the models
// ---------------------------------------------------------------------------

/// Answers what a type resolves to. Every answer is recorded in `lookups`,
/// so that what a walk over the models asked, and was told, can be spoken of.
pub trait TypeEntryResolver {
    /// The resolver is in a state in which it can answer.
    spec fn ready(&self) -> bool;

    /// The type names asked so far, each with the entry given for it.
    spec fn lookups(&self) -> Seq<(Seq<char>, EntryShape)>;

    /// `e` is an entry the resolver may give for the type called `name`.
    spec fn answers(&self, name: Seq<char>, e: EntryShape) -> bool;

    /// The entry of the type called `name`. Asking changes none of the
    /// answers the resolver may give.
    fn find_type_entry(&mut self, name: &str) -> (r: TypeDescriptorEntry)
        requires
            old(self).ready(),
        ensures
            final(self).ready(),
            final(self).lookups() == old(self).lookups().push((name@, r@)),
            forall|n: Seq<char>, e: EntryShape| #[trigger] final(self).answers(n, e) == old(self).answers(n, e),
    ;
}

/// `b` may give exactly the answers `a` may give.
pub open spec fn answers_kept<R: TypeEntryResolver>(a: &R, b: &R) -> bool {
    forall|n: Seq<char>, e: EntryShape| #[trigger] b.answers(n, e) == a.answers(n, e)
}

/// The entry a table gives for `name`: the first entry of that name, else an
/// entry of that name without offset or fields, warned as a model without
/// data is.
pub open spec fn table_answer(table: Seq<EntryShape>, name: Seq<char>) -> EntryShape
    decreases table.len(),
{
    if table.len() == 0 {
        EntryShape {
            name,
            offset: None,
            fields: seq![],
            warn: crate::model_resolver::no_data_warn(name),
        }
    } else if table[0].name == name {
        table[0]
    } else {
        table_answer(table.drop_first(), name)
    }
}

/// A copy of an entry.
pub fn copy_entry(e: &TypeDescriptorEntry) -> (r: TypeDescriptorEntry)
    ensures
        r@ == e@,
{
    TypeDescriptorEntry {
        offset: copy_opt_string(&e.offset),
        name: e.name.clone(),
        fields: copy_fields(&e.fields),
        warn: copy_opt_string(&e.warn),
    }
}

/// A resolver that answers from a fixed table of entries, for types whose
/// resolution is already known.
pub struct EntryTable {
    entries: Vec<TypeDescriptorEntry>,
    asked: Ghost<Seq<(Seq<char>, EntryShape)>>,
}

impl EntryTable {
    /// The entries of the table, in order.
    pub closed spec fn table(&self) -> Seq<EntryShape> {
        self.entries@.map_values(|e: TypeDescriptorEntry| e@)
    }

    /// A table holding `entries`, asked nothing yet.
    pub fn new(entries: Vec<TypeDescriptorEntry>) -> (r: EntryTable)
        ensures
            r.table() == entries@.map_values(|e: TypeDescriptorEntry| e@),
            r.lookups() == Seq::<(Seq<char>, EntryShape)>::empty(),
    {
        EntryTable { entries, asked: Ghost(Seq::empty()) }
    }
}

impl TypeEntryResolver for EntryTable {
    open spec fn ready(&self) -> bool {
        true
    }

    closed spec fn lookups(&self) -> Seq<(Seq<char>, EntryShape)> {
        self.asked@
    }

    open spec fn answers(&self, name: Seq<char>, e: EntryShape) -> bool {
        e == table_answer(self.table(), name)
    }

    fn find_type_entry(&mut self, name: &str) -> (r: TypeDescriptorEntry)
        ensures
            r@ == table_answer(old(self).table(), name@),
            final(self).table() == old(self).table(),
    {
        let ghost t = self.table();
        let ghost asked0 = self.asked@;
        let mut i: usize = 0;
        assert(t.subrange(0, t.len() as int) =~= t);
        while i < self.entries.len()
            invariant
                i <= self.entries.len(),
                t == self.table(),
                t.len() == self.entries.len(),
                asked0 == self.asked@,
                asked0 == old(self).lookups(),
                t == old(self).table(),
                table_answer(t, name@) == table_answer(t.subrange(i as int, t.len() as int), name@),
            decreases self.entries.len() - i,
        {
            let ghost rest = t.subrange(i as int, t.len() as int);
            assert(rest[0] == self.entries[i as int]@);
            if str_eq(self.entries[i].name.as_str(), name) {
                let r = copy_entry(&self.entries[i]);
                assert(rest[0].name == name@);
                proof {
                    self.asked@ = self.asked@.push((name@, r@));
                }
                return r;
            }
            assert(rest.drop_first() =~= t.subrange(i + 1, t.len() as int));
            i = i + 1;
        }
        let warn = crate::model_resolver::warn_for_no_data(name);
        let r = TypeDescriptorEntry { offset: None, name: crate::text::owned(name), fields: Vec::new(), warn };
        assert(fields_view(r.fields@) =~= Seq::<FieldShape>::empty());
        proof {
            self.asked@ = self.asked@.push((name@, r@));
        }
        r
    }
}

/// The requests and responses of the packets, in order.
pub open spec fn packet_entries(ps: Seq<PacketEntry>) -> Seq<EntryShape>
    decreases ps.len(),
{
    if ps.len() == 0 {
        seq![]
    } else {
        packet_entries(ps.drop_last()) + seq![ps.last().request@, ps.last().response@]
    }
}

/// `o` as a sequence of zero or one entry.
pub open spec fn opt_entry(o: Option<TypeDescriptorEntry>) -> Seq<EntryShape> {
    match o {
        Some(e) => seq![e@],
        None => seq![],
    }
}

/// The requests and responses present in the events, in order.
pub open spec fn event_entries(es: Seq<EventEntry>) -> Seq<EntryShape>
    decreases es.len(),
{
    if es.len() == 0 {
        seq![]
    } else {
        event_entries(es.drop_last()) + opt_entry(es.last().request) + opt_entry(es.last().response)
    }
}

/// The top-level entries: those of the packets, then those of the events.
pub open spec fn top_level_entries(ps: Seq<PacketEntry>, es: Seq<EventEntry>) -> Seq<EntryShape> {
    packet_entries(ps) + event_entries(es)
}

/// The names of a list of entries.
pub open spec fn entry_names(es: Seq<EntryShape>) -> Seq<Seq<char>> {
    es.map_values(|e: EntryShape| e.name)
}

/// The entries given in a log of lookups.
pub open spec fn looked_up(log: Seq<(Seq<char>, EntryShape)>) -> Seq<EntryShape> {
    log.map_values(|p: (Seq<char>, EntryShape)| p.1)
}

/// The names asked in a log of lookups.
pub open spec fn looked_up_names(log: Seq<(Seq<char>, EntryShape)>) -> Seq<Seq<char>> {
    log.map_values(|p: (Seq<char>, EntryShape)| p.0)
}

/// The names a field leads a walk to: its polymorphic base and the base's
/// RTTI subclasses, then the models it refers to.
pub open spec fn walk_refs(f: FieldShape, h: Seq<(Seq<char>, Seq<Seq<char>>)>) -> Seq<Seq<char>> {
    (match field_polymorphic_base(f) {
        Some(b) => seq![b] + (match derived_in(h, b) {
            Some(d) => d,
            None => seq![],
        }),
        None => seq![],
    }) + model_refs(f)
}

/// The names a list of fields leads a walk to.
pub open spec fn fields_walk_refs(fs: Seq<FieldShape>, h: Seq<(Seq<char>, Seq<Seq<char>>)>) -> Seq<
    Seq<char>,
>
    decreases fs.len(),
{
    if fs.len() == 0 {
        seq![]
    } else {
        fields_walk_refs(fs.drop_last(), h) + walk_refs(fs.last(), h)
    }
}

/// The names the fields of a list of entries lead a walk to.
pub open spec fn entries_walk_refs(es: Seq<EntryShape>, h: Seq<(Seq<char>, Seq<Seq<char>>)>) -> Seq<
    Seq<char>,
>
    decreases es.len(),
{
    if es.len() == 0 {
        seq![]
    } else {
        entries_walk_refs(es.drop_last(), h) + fields_walk_refs(es.last().fields, h)
    }
}

/// The polymorphic bases of a list of fields.
pub open spec fn fields_bases(fs: Seq<FieldShape>) -> Seq<Seq<char>>
    decreases fs.len(),
{
    if fs.len() == 0 {
        seq![]
    } else {
        fields_bases(fs.drop_last()) + opt_seq(field_polymorphic_base(fs.last()))
    }
}

/// The polymorphic bases of the fields of a list of entries.
pub open spec fn entries_bases(es: Seq<EntryShape>) -> Seq<Seq<char>>
    decreases es.len(),
{
    if es.len() == 0 {
        seq![]
    } else {
        entries_bases(es.drop_last()) + fields_bases(es.last().fields)
    }
}

/// A base class whose name marks it as polymorphic: in `Api::OneMe` and
/// ending in `Attachment` or `Params`.
pub open spec fn is_heuristic_root_name(k: Seq<char>) -> bool {
    has_prefix(k, "Api::OneMe::"@) && (has_suffix(k, "Attachment"@) || has_suffix(k, "Params"@))
}

/// Among the first `n` hierarchy entries, one for `k` lists a subclass, and
/// `k`'s name marks it as polymorphic.
pub open spec fn heuristic_root_in(h: Seq<(Seq<char>, Seq<Seq<char>>)>, n: int, k: Seq<char>) -> bool {
    is_heuristic_root_name(k) && exists|i: int| 0 <= i < n && (#[trigger] h[i]).0 == k && h[i].1.len() > 0
}

/// `k` is a polymorphic root by the RTTI heuristic.
pub open spec fn heuristic_root(h: Seq<(Seq<char>, Seq<Seq<char>>)>, k: Seq<char>) -> bool {
    heuristic_root_in(h, h.len() as int, k)
}

/// What the root map holds for `k`, given the polymorphic bases met in
/// protocol fields.
pub open spec fn expected_root(h: Seq<(Seq<char>, Seq<Seq<char>>)>, bases: Seq<Seq<char>>, k: Seq<char>) -> Option<
    RootSources,
> {
    if heuristic_root(h, k) || bases.contains(k) {
        Some(RootSources { protocol_field: bases.contains(k), rtti_heuristic: heuristic_root(h, k) })
    } else {
        None
    }
}

/// Names a walk passes over without resolving: placeholder models,
/// `::Polymorphic` wrappers, primitive and standard types, and the top-level
/// request and response types.
pub open spec fn skipped_by_walk(n: Seq<char>, top: Seq<Seq<char>>) -> bool {
    is_empty_model_spec(n) || has_suffix(n, "::Polymorphic"@) || is_builtin_spec(n) || top.contains(n)
}

proof fn lemma_contains_concat(a: Seq<Seq<char>>, b: Seq<Seq<char>>, x: Seq<char>)
    ensures
        (a + b).contains(x) <==> (a.contains(x) || b.contains(x)),
{
    if a.contains(x) {
        let i = choose|i: int| 0 <= i < a.len() && a[i] == x;
        assert((a + b)[i] == x);
    }
    if b.contains(x) {
        let i = choose|i: int| 0 <= i < b.len() && b[i] == x;
        assert((a + b)[a.len() + i] == x);
    }
    if (a + b).contains(x) {
        let i = choose|i: int| 0 <= i < (a + b).len() && (a + b)[i] == x;
        if i < a.len() {
            assert(a[i] == x);
        } else {
            assert(b[i - a.len()] == x);
        }
    }
}

/// The top-level entries, borrowed.
fn top_level_list<'a>(packets: &'a Vec<PacketEntry>, events: &'a Vec<EventEntry>) -> (r: Vec<
    &'a TypeDescriptorEntry,
>)
    ensures
        r@.map_values(|e: &TypeDescriptorEntry| e@) == top_level_entries(packets@, events@),
{
    let mut r: Vec<&TypeDescriptorEntry> = Vec::new();
    let mut i: usize = 0;
    while i < packets.len()
        invariant
            i <= packets.len(),
            r@.map_values(|e: &TypeDescriptorEntry| e@) == packet_entries(packets@.take(i as int)),
        decreases packets.len() - i,
    {
        let ghost prev = r@;
        r.push(&packets[i].request);
        r.push(&packets[i].response);
        assert(packets@.take(i + 1).drop_last() =~= packets@.take(i as int));
        assert(r@.map_values(|e: &TypeDescriptorEntry| e@) =~= prev.map_values(
            |e: &TypeDescriptorEntry| e@,
        ) + seq![packets[i as int].request@, packets[i as int].response@]);
        i = i + 1;
    }
    assert(packets@.take(packets.len() as int) =~= packets@);
    let ghost pe = r@.map_values(|e: &TypeDescriptorEntry| e@);
    let mut j: usize = 0;
    assert(pe + event_entries(events@.take(0)) =~= pe);
    while j < events.len()
        invariant
            j <= events.len(),
            pe == packet_entries(packets@),
            r@.map_values(|e: &TypeDescriptorEntry| e@) == pe + event_entries(events@.take(j as int)),
        decreases events.len() - j,
    {
        let ghost prev = r@.map_values(|e: &TypeDescriptorEntry| e@);
        assert(events@.take(j + 1).drop_last() =~= events@.take(j as int));
        let ev = &events[j];
        let ghost mid = prev + opt_entry(ev.request);
        match &ev.request {
            Some(q) => {
                r.push(q);
            },
            None => {},
        }
        assert(r@.map_values(|e: &TypeDescriptorEntry| e@) =~= mid);
        match &ev.response {
            Some(q) => {
                r.push(q);
            },
            None => {},
        }
        assert(r@.map_values(|e: &TypeDescriptorEntry| e@) =~= mid + opt_entry(ev.response));
        j = j + 1;
    }
    assert(events@.take(events.len() as int) =~= events@);
    r
}

/// Whether `name` is the name of one of `list`.
fn names_entry_in(list: &Vec<&TypeDescriptorEntry>, name: &str) -> (r: bool)
    ensures
        r == entry_names(list@.map_values(|e: &TypeDescriptorEntry| e@)).contains(name@),
{
    let ghost names = entry_names(list@.map_values(|e: &TypeDescriptorEntry| e@));
    let mut i: usize = 0;
    while i < list.len()
        invariant
            i <= list.len(),
            names == entry_names(list@.map_values(|e: &TypeDescriptorEntry| e@)),
            forall|k: int| 0 <= k < i ==> names[k] != name@,
        decreases list.len() - i,
    {
        assert(names[i as int] == list[i as int].name@);
        if str_eq(list[i].name.as_str(), name) {
            return true;
        }
        i = i + 1;
    }
    false
}

/// Records `base` as a root met in a protocol field.
fn mark_protocol_root(
    roots: &mut NameMap<RootSources>,
    base: String,
    Ghost(h): Ghost<Seq<(Seq<char>, Seq<Seq<char>>)>>,
    Ghost(bases): Ghost<Seq<Seq<char>>>,
)
    requires
        old(roots).wf(),
        forall|k: Seq<char>| #[trigger] old(roots).spec_get(k) == expected_root(h, bases, k),
    ensures
        final(roots).wf(),
        forall|k: Seq<char>| #[trigger] final(roots).spec_get(k) == expected_root(h, bases.push(base@), k),
{
    let ghost bv = base@;
    let heur = match roots.get(base.as_str()) {
        Some(s) => s.rtti_heuristic,
        None => false,
    };
    assert(heur == heuristic_root(h, bv));
    roots.set(base, RootSources { protocol_field: true, rtti_heuristic: heur });
    assert forall|k: Seq<char>| #[trigger] roots.spec_get(k) == expected_root(h, bases.push(bv), k) by {
        lemma_contains_concat(bases, seq![bv], k);
        assert(bases.push(bv) =~= bases + seq![bv]);
        if k != bv {
            assert(!seq![bv].contains(k)) by {
                if seq![bv].contains(k) {
                    assert(seq![bv][0] == bv);
                }
            }
        } else {
            assert(seq![bv][0] == bv);
        }
    }
}

fn push_all(queue: &mut Vec<String>, items: &[String])
    ensures
        final(queue).deep_view() == old(queue).deep_view() + items.deep_view(),
{
    let ghost start = queue.deep_view();
    let mut i: usize = 0;
    while i < items.len()
        invariant
            i <= items.len(),
            queue.deep_view() == start + items.deep_view().take(i as int),
        decreases items.len() - i,
    {
        let ghost prev = queue.deep_view();
        queue.push(items[i].clone());
        assert(items.deep_view().take(i + 1) =~= items.deep_view().take(i as int).push(items[i as int]@));
        assert(queue.deep_view() =~= prev.push(items[i as int]@));
        i = i + 1;
    }
    assert(items.deep_view().take(items.len() as int) =~= items.deep_view());
}

/// Looks at one field during root discovery: its polymorphic base becomes a
/// protocol root and is queued with its subclasses, then the models it refers
/// to are queued.
fn inspect_field(
    field: &ExtractedField,
    hierarchy: &ClassHierarchy,
    roots: &mut NameMap<RootSources>,
    queue: &mut Vec<String>,
    Ghost(bases): Ghost<Seq<Seq<char>>>,
)
    requires
        old(roots).wf(),
        forall|k: Seq<char>| #[trigger] old(roots).spec_get(k) == expected_root(hierarchy.entries(), bases, k),
    ensures
        final(roots).wf(),
        forall|k: Seq<char>| #[trigger] final(roots).spec_get(k) == expected_root(
            hierarchy.entries(),
            bases + opt_seq(field_polymorphic_base(field@)),
            k,
        ),
        final(queue).deep_view() == old(queue).deep_view() + walk_refs(field@, hierarchy.entries()),
{
    let ghost h = hierarchy.entries();
    let ghost q0 = queue.deep_view();
    let base = extract_polymorphic_base_from_field(field);
    match base {
        Some(b) => {
            let ghost bv = b@;
            mark_protocol_root(roots, b.clone(), Ghost(h), Ghost(bases));
            assert(bases.push(bv) =~= bases + opt_seq(field_polymorphic_base(field@)));
            let ghost prev = queue.deep_view();
            queue.push(b.clone());
            assert(queue.deep_view() =~= prev.push(bv));
            match hierarchy.derived_of(b.as_str()) {
                Some(d) => {
                    push_all(queue, d);
                },
                None => {},
            }
            assert(queue.deep_view() =~= q0 + (seq![bv] + (match derived_in(h, bv) {
                Some(d) => d,
                None => seq![],
            })));
        },
        None => {
            assert(bases + opt_seq(field_polymorphic_base(field@)) =~= bases);
            assert(queue.deep_view() =~= q0 + Seq::<Seq<char>>::empty());
        },
    }
    let ghost q1 = queue.deep_view();
    collect_model_refs_from_field(field, queue);
    assert(queue.deep_view() =~= q0 + walk_refs(field@, h));
}

/// Looks at every field of an entry during root discovery.
fn inspect_entry(
    entry: &TypeDescriptorEntry,
    hierarchy: &ClassHierarchy,
    roots: &mut NameMap<RootSources>,
    queue: &mut Vec<String>,
    Ghost(bases): Ghost<Seq<Seq<char>>>,
)
    requires
        old(roots).wf(),
        forall|k: Seq<char>| #[trigger] old(roots).spec_get(k) == expected_root(hierarchy.entries(), bases, k),
    ensures
        final(roots).wf(),
        forall|k: Seq<char>| #[trigger] final(roots).spec_get(k) == expected_root(
            hierarchy.entries(),
            bases + fields_bases(entry@.fields),
            k,
        ),
        final(queue).deep_view() == old(queue).deep_view() + fields_walk_refs(entry@.fields, hierarchy.entries()),
{
    let ghost h = hierarchy.entries();
    let ghost q0 = queue.deep_view();
    let ghost fs = entry@.fields;
    let mut i: usize = 0;
    assert(fs.take(0) =~= Seq::<FieldShape>::empty());
    assert(bases + fields_bases(fs.take(0)) =~= bases);
    assert(q0 + fields_walk_refs(fs.take(0), h) =~= q0);
    while i < entry.fields.len()
        invariant
            i <= entry.fields.len(),
            h == hierarchy.entries(),
            fs == entry@.fields,
            fs.len() == entry.fields.len(),
            roots.wf(),
            forall|k: Seq<char>| #[trigger] roots.spec_get(k) == expected_root(h, bases + fields_bases(fs.take(i as int)), k),
            queue.deep_view() == q0 + fields_walk_refs(fs.take(i as int), h),
        decreases entry.fields.len() - i,
    {
        assert(fs.take(i + 1).drop_last() =~= fs.take(i as int));
        assert(fs.take(i + 1).last() == entry.fields[i as int]@);
        inspect_field(&entry.fields[i], hierarchy, roots, queue, Ghost(bases + fields_bases(fs.take(i as int))));
        assert(bases + fields_bases(fs.take(i as int)) + opt_seq(field_polymorphic_base(entry.fields[i as int]@))
            =~= bases + fields_bases(fs.take(i + 1)));
        assert(q0 + fields_walk_refs(fs.take(i as int), h) + walk_refs(entry.fields[i as int]@, h)
            =~= q0 + fields_walk_refs(fs.take(i + 1), h));
        i = i + 1;
    }
    assert(fs.take(fs.len() as int) =~= fs);
}

proof fn lemma_walk_push(
    seeds: Seq<EntryShape>,
    log: Seq<(Seq<char>, EntryShape)>,
    n: Seq<char>,
    e: EntryShape,
    h: Seq<(Seq<char>, Seq<Seq<char>>)>,
)
    ensures
        seeds + looked_up(log.push((n, e))) == (seeds + looked_up(log)).push(e),
        entries_walk_refs(seeds + looked_up(log.push((n, e))), h) == entries_walk_refs(
            seeds + looked_up(log),
            h,
        ) + fields_walk_refs(e.fields, h),
        entries_bases(seeds + looked_up(log.push((n, e)))) == entries_bases(seeds + looked_up(log))
            + fields_bases(e.fields),
        looked_up_names(log.push((n, e))) == looked_up_names(log).push(n),
{
    let x = seeds + looked_up(log);
    assert(seeds + looked_up(log.push((n, e))) =~= x.push(e));
    assert(x.push(e).drop_last() =~= x);
    assert(looked_up_names(log.push((n, e))) =~= looked_up_names(log).push(n));
}

/// What the discovery of polymorphic roots gives, the resolver having
/// answered `log` to the walk: the roots by RTTI heuristic and by protocol
/// field, and a walk that asked each model once, only models the walk
/// reaches, and (unless it was cut short) every one of them.
pub open spec fn roots_outcome(
    packets: Seq<PacketEntry>,
    events: Seq<EventEntry>,
    h: Seq<(Seq<char>, Seq<Seq<char>>)>,
    log: Seq<(Seq<char>, EntryShape)>,
    roots: NameMap<RootSources>,
) -> bool {
    let seeds = top_level_entries(packets, events);
    let names = looked_up_names(log);
    let walked = seeds + looked_up(log);
    &&& roots.wf()
    &&& forall|k: Seq<char>| #[trigger] roots.spec_get(k) == expected_root(h, entries_bases(walked), k)
    &&& forall|i: int, j: int| 0 <= i < j < names.len() ==> names[i] != names[j]
    &&& forall|i: int| 0 <= i < names.len() ==> !skipped_by_walk(#[trigger] names[i], entry_names(seeds))
        && entries_walk_refs(seeds + looked_up(log.take(i)), h).contains(names[i])
    &&& names.len() < u64::MAX ==> forall|n: Seq<char>| #[trigger] entries_walk_refs(walked, h).contains(n)
        && !skipped_by_walk(n, entry_names(seeds)) ==> names.contains(n)
}

/// Finds the polymorphic roots: the base classes that RTTI marks as
/// polymorphic by name, and every polymorphic base met in a field of a
/// top-level entry or of a model reached from one. The walk resolves, once
/// each, every name that the fields of the top-level entries and of the models
/// already resolved lead to, except the names it passes over
/// ([`skipped_by_walk`]); nothing else is resolved.
#[verifier::rlimit(40)]
pub fn discover_polymorphic_roots<R: TypeEntryResolver>(
    packets: &Vec<PacketEntry>,
    events: &Vec<EventEntry>,
    hierarchy: &ClassHierarchy,
    resolver: &mut R,
) -> (roots: NameMap<RootSources>)
    requires
        old(resolver).ready(),
    ensures
        final(resolver).ready(),
        answers_kept(&*old(resolver), &*final(resolver)),
        old(resolver).lookups().len() <= final(resolver).lookups().len(),
        final(resolver).lookups() == old(resolver).lookups() + final(resolver).lookups().skip(old(resolver).lookups().len() as int),
        roots_outcome(packets@, events@, hierarchy.entries(), final(resolver).lookups().skip(old(resolver).lookups().len() as int), roots),
{
    let ghost h = hierarchy.entries();
    let ghost log0 = resolver.lookups();
    let mut roots: NameMap<RootSources> = NameMap::new();

    // Roots by the RTTI heuristic.
    let mut i: usize = 0;
    while i < hierarchy.base_to_derived.len()
        invariant
            i <= hierarchy.base_to_derived.len(),
            h == hierarchy.entries(),
            h.len() == hierarchy.base_to_derived.len(),
            roots.wf(),
            forall|k: Seq<char>| #[trigger] roots.spec_get(k) == (if heuristic_root_in(h, i as int, k) {
                Some(RootSources { protocol_field: false, rtti_heuristic: true })
            } else {
                None
            }),
        decreases hierarchy.base_to_derived.len() - i,
    {
        let base = &hierarchy.base_to_derived[i].0;
        let derived = &hierarchy.base_to_derived[i].1;
        let ghost bv = base@;
        assert(h[i as int].0 == bv && h[i as int].1.len() == derived.len());
        let bc = chars_of(base.as_str());
        let chosen = starts_with_str(&bc, "Api::OneMe::") && derived.len() > 0 && (ends_with_str(
            &bc,
            "Attachment",
        ) || ends_with_str(&bc, "Params"));
        if chosen {
            roots.set(base.clone(), RootSources { protocol_field: false, rtti_heuristic: true });
        }
        assert forall|k: Seq<char>| #[trigger] roots.spec_get(k) == (if heuristic_root_in(h, i + 1, k) {
            Some(RootSources { protocol_field: false, rtti_heuristic: true })
        } else {
            None
        }) by {
            if heuristic_root_in(h, i + 1, k) && !heuristic_root_in(h, i as int, k) {
                let j = choose|j: int| 0 <= j < i + 1 && (#[trigger] h[j]).0 == k && h[j].1.len() > 0;
                assert(j == i);
            }
            if heuristic_root_in(h, i as int, k) {
                let j = choose|j: int| 0 <= j < i && (#[trigger] h[j]).0 == k && h[j].1.len() > 0;
                assert(heuristic_root_in(h, i + 1, k));
            }
            if chosen && k == bv {
                assert(heuristic_root_in(h, i + 1, k));
            }
        }
        i = i + 1;
    }
    assert forall|k: Seq<char>| #[trigger] roots.spec_get(k) == expected_root(h, Seq::<Seq<char>>::empty(), k) by {
        assert(!Seq::<Seq<char>>::empty().contains(k));
    }

    // The top-level entries are the seeds of the walk.
    let list = top_level_list(packets, events);
    let ghost seeds = top_level_entries(packets@, events@);
    let ghost top = entry_names(seeds);
    let mut queue: Vec<String> = Vec::new();
    let mut s: usize = 0;
    assert(seeds.take(0) =~= Seq::<EntryShape>::empty());
    assert(queue.deep_view() =~= entries_walk_refs(seeds.take(0), h));
    while s < list.len()
        invariant
            s <= list.len(),
            h == hierarchy.entries(),
            list@.map_values(|e: &TypeDescriptorEntry| e@) == seeds,
            seeds.len() == list.len(),
            roots.wf(),
            forall|k: Seq<char>| #[trigger] roots.spec_get(k) == expected_root(h, entries_bases(seeds.take(s as int)), k),
            queue.deep_view() == entries_walk_refs(seeds.take(s as int), h),
        decreases list.len() - s,
    {
        assert(seeds.take(s + 1).drop_last() =~= seeds.take(s as int));
        assert(seeds.take(s + 1).last() == list[s as int]@);
        inspect_entry(list[s], hierarchy, &mut roots, &mut queue, Ghost(entries_bases(seeds.take(s as int))));
        s = s + 1;
    }
    assert(seeds.take(seeds.len() as int) =~= seeds);
    assert(seeds + looked_up(Seq::<(Seq<char>, EntryShape)>::empty()) =~= seeds);

    // The walk.
    let mut visited = NameSet::new();
    let ghost mut log: Seq<(Seq<char>, EntryShape)> = Seq::empty();
    let mut fuel: u64 = u64::MAX;
    assert forall|n: Seq<char>| #[trigger] entries_walk_refs(seeds + looked_up(log), h).contains(n)
        implies queue.deep_view().contains(n) by {}
    while queue.len() > 0
        invariant
            h == hierarchy.entries(),
            list@.map_values(|e: &TypeDescriptorEntry| e@) == seeds,
            top == entry_names(seeds),
            resolver.lookups() == log0 + log,
            resolver.ready(),
            answers_kept(&*old(resolver), &*resolver),
            visited.wf(),
            forall|n: Seq<char>| #[trigger] visited@.contains(n) <==> looked_up_names(log).contains(n),
            forall|i: int, j: int| 0 <= i < j < log.len() ==> log[i].0 != log[j].0,
            forall|i: int| 0 <= i < log.len() ==> !skipped_by_walk(#[trigger] log[i].0, top)
                && entries_walk_refs(seeds + looked_up(log.take(i)), h).contains(log[i].0),
            forall|q: Seq<char>| #[trigger] queue.deep_view().contains(q) ==> entries_walk_refs(
                seeds + looked_up(log),
                h,
            ).contains(q),
            forall|n: Seq<char>| #[trigger] entries_walk_refs(seeds + looked_up(log), h).contains(n)
                ==> queue.deep_view().contains(n) || skipped_by_walk(n, top) || looked_up_names(log).contains(n),
            roots.wf(),
            forall|k: Seq<char>| #[trigger] roots.spec_get(k) == expected_root(h, entries_bases(seeds + looked_up(log)), k),
            fuel as int + log.len() == u64::MAX,
        ensures
            queue.len() == 0 || fuel == 0,
        decreases fuel, queue.len(),
    {
        if fuel == 0 {
            break;
        }
        let ghost qv = queue.deep_view();
        let ghost all = entries_walk_refs(seeds + looked_up(log), h);
        let name = queue.pop().unwrap();
        let ghost p = name@;
        assert(qv == queue.deep_view().push(p)) by {
            assert(qv =~= queue.deep_view().push(p));
        }
        assert forall|n: Seq<char>| qv.contains(n) implies n == p || #[trigger] queue.deep_view().contains(n) by {
            let k = choose|k: int| 0 <= k < qv.len() && qv[k] == n;
            if k < qv.len() - 1 {
                assert(queue.deep_view()[k] == n);
            }
        }
        assert forall|q: Seq<char>| #[trigger] queue.deep_view().contains(q) implies qv.contains(q) by {
            let k = choose|k: int| 0 <= k < queue.deep_view().len() && queue.deep_view()[k] == q;
            assert(qv[k] == q);
        }
        assert(qv.contains(p)) by {
            assert(qv[qv.len() - 1] == p);
        }
        let nc = chars_of(name.as_str());
        if is_empty_model_type_name(name.as_str()) || ends_with_str(&nc, "::Polymorphic")
            || is_primitive_or_builtin_type(name.as_str()) || names_entry_in(&list, name.as_str()) {
            continue;
        }
        if visited.contains(name.as_str()) {
            continue;
        }
        visited.insert(name.clone());
        let entry = resolver.find_type_entry(name.as_str());
        fuel = fuel - 1;
        let ghost e = entry@;
        let ghost old_log = log;
        proof {
            lemma_walk_push(seeds, log, p, e, h);
            log = log.push((p, e));
            assert forall|i: int| 0 <= i < old_log.len() implies log.take(i) == old_log.take(i) by {
                assert(log.take(i) =~= old_log.take(i));
            }
            assert(log.take(old_log.len() as int) =~= old_log);
            assert(log[old_log.len() as int].0 == p);
        }
        let ghost qmid = queue.deep_view();
        inspect_entry(&entry, hierarchy, &mut roots, &mut queue, Ghost(entries_bases(seeds + looked_up(old_log))));
        proof {
            let rest = fields_walk_refs(e.fields, h);
            assert(queue.deep_view() == qmid + rest);
            assert forall|q: Seq<char>| #[trigger] queue.deep_view().contains(q) implies entries_walk_refs(
                seeds + looked_up(log),
                h,
            ).contains(q) by {
                lemma_contains_concat(qmid, rest, q);
                lemma_contains_concat(all, rest, q);
            }
            assert forall|n: Seq<char>| #[trigger] entries_walk_refs(seeds + looked_up(log), h).contains(n)
                implies queue.deep_view().contains(n) || skipped_by_walk(n, top) || looked_up_names(log).contains(n) by {
                lemma_contains_concat(all, rest, n);
                lemma_contains_concat(qmid, rest, n);
                lemma_contains_concat(looked_up_names(old_log), seq![p], n);
                assert(looked_up_names(old_log).push(p) =~= looked_up_names(old_log) + seq![p]);
                if n == p {
                    assert(seq![p][0] == p);
                }
            }
            assert forall|n: Seq<char>| #[trigger] visited@.contains(n) <==> looked_up_names(log).contains(n) by {
                lemma_contains_concat(looked_up_names(old_log), seq![p], n);
                assert(looked_up_names(old_log).push(p) =~= looked_up_names(old_log) + seq![p]);
                if n == p {
                    assert(seq![p][0] == p);
                }
                assert(visited@.to_set().contains(n) == visited@.contains(n));
            }
            assert forall|i: int| 0 <= i < old_log.len() implies old_log[i].0 != p by {
                assert(looked_up_names(old_log)[i] == old_log[i].0);
            }
        }
    }
    assert(log =~= resolver.lookups().skip(log0.len() as int));
    roots
}

// ---------------------------------------------------------------------------
// Polymorphic groups
// ---------------------------------------------------------------------------

/// The abstract value of a [`PolymorphicModelEntry`].
pub struct PolyShape {
    pub name: Seq<char>,
    pub root_sources: Seq<Seq<char>>,
    pub discriminator: Option<(Seq<char>, Seq<char>)>,
    pub base_offset: Option<Seq<char>>,
    pub base_fields: Seq<FieldShape>,
    pub variants: Seq<VariantShape>,
    pub rtti_subclasses: Seq<VariantShape>,
}

impl View for PolymorphicModelEntry {
    type V = PolyShape;

    open spec fn view(&self) -> PolyShape {
        PolyShape {
            name: self.name@,
            root_sources: self.root_sources.deep_view(),
            discriminator: match self.discriminator {
                Some(d) => Some((d.field@, d.value_type@)),
                None => None,
            },
            base_offset: self.base.offset.deep_view(),
            base_fields: fields_view(self.base.fields@),
            variants: variants_view(self.variants@),
            rtti_subclasses: variants_view(self.rtti_subclasses@),
        }
    }
}

impl PolymorphicVariant {
    /// A copy of this variant.
    pub fn duplicate(&self) -> (r: PolymorphicVariant)
        ensures
            r@ == self@,
    {
        PolymorphicVariant {
            name: self.name.clone(),
            offset: copy_opt_string(&self.offset),
            fields: copy_fields(&self.fields),
            all_fields: copy_fields(&self.all_fields),
            tag: copy_opt_string(&self.tag),
        }
    }
}

/// The RTTI subclasses of `base` other than `base` itself.
pub open spec fn subclass_set(h: Seq<(Seq<char>, Seq<Seq<char>>)>, base: Seq<char>) -> Set<Seq<char>> {
    match derived_in(h, base) {
        Some(d) => d.to_set().remove(base),
        None => Set::empty(),
    }
}

/// The RTTI subclasses of `base` other than `base` itself, in ascending order.
pub open spec fn subclass_names(h: Seq<(Seq<char>, Seq<Seq<char>>)>, base: Seq<char>) -> Seq<Seq<char>> {
    sorted_names(subclass_set(h, base))
}

/// The ascending list of `base`'s subclasses holds exactly its subclass set.
pub open spec fn subclasses_listed(h: Seq<(Seq<char>, Seq<Seq<char>>)>, base: Seq<char>) -> bool {
    strictly_sorted(subclass_names(h, base)) && subclass_names(h, base).to_set() == subclass_set(h, base)
}

/// The names a group build asks for, root by root: the base, then its
/// subclasses in ascending order.
pub open spec fn poly_lookup_names(keys: Seq<Seq<char>>, h: Seq<(Seq<char>, Seq<Seq<char>>)>) -> Seq<
    Seq<char>,
>
    decreases keys.len(),
{
    if keys.len() == 0 {
        seq![]
    } else {
        poly_lookup_names(keys.drop_last(), h) + seq![keys.last()] + subclass_names(h, keys.last())
    }
}

/// A subclass variant built from its entry, before any tag is attached.
pub open spec fn subclass_variant(name: Seq<char>, base_fields: Seq<FieldShape>, e: EntryShape) -> VariantShape {
    VariantShape {
        name: name,
        offset: e.offset,
        fields: e.fields,
        all_fields: flatten_fields(base_fields, e.fields),
        tag: None,
    }
}

/// The discriminator tag known for a variant name.
pub open spec fn tag_of(disc: NameMap<String>, name: Seq<char>) -> Option<Seq<char>> {
    match disc.spec_get(name) {
        Some(t) => Some(t@),
        None => None,
    }
}

/// The group built for root `base` with sources `src`, from the entries given
/// for the base (`es[0]`) and for each subclass (`es[1 + j]`).
pub open spec fn poly_group(
    base: Seq<char>,
    src: RootSources,
    h: Seq<(Seq<char>, Seq<Seq<char>>)>,
    disc: NameMap<String>,
    es: Seq<EntryShape>,
) -> PolyShape {
    let names = subclass_names(h, base);
    let eb = es[0];
    let subs = Seq::new(names.len(), |j: int| subclass_variant(names[j], eb.fields, es[1 + j]));
    PolyShape {
        name: base,
        root_sources: source_names(src),
        discriminator: if field_names(eb.fields).contains("_type"@) {
            Some(("_type"@, "std::string"@))
        } else {
            None
        },
        base_offset: eb.offset,
        base_fields: eb.fields,
        variants: if src.protocol_field {
            subs.map_values(|v: VariantShape| VariantShape { tag: tag_of(disc, v.name), ..v })
        } else {
            seq![]
        },
        rtti_subclasses: subs,
    }
}

/// The catalogue names of the first `n` roots: each protocol root and its
/// subclasses.
pub open spec fn poly_catalog_set(
    keys: Seq<Seq<char>>,
    vals: Seq<RootSources>,
    h: Seq<(Seq<char>, Seq<Seq<char>>)>,
    n: int,
) -> Set<Seq<char>>
    decreases n,
{
    if n <= 0 {
        Set::empty()
    } else if vals[n - 1].protocol_field {
        poly_catalog_set(keys, vals, h, n - 1).insert(keys[n - 1]).union(subclass_set(h, keys[n - 1]))
    } else {
        poly_catalog_set(keys, vals, h, n - 1)
    }
}

/// The subclasses of `base` other than itself, ascending and without
/// repetition.
fn subclass_list(hierarchy: &ClassHierarchy, base: &str) -> (r: Vec<String>)
    ensures
        r.deep_view() == subclass_names(hierarchy.entries(), base@),
        strictly_sorted(r.deep_view()),
        r.deep_view().to_set() == subclass_set(hierarchy.entries(), base@),
{
    let mut set = NameSet::new();
    match hierarchy.derived_of(base) {
        Some(d) => {
            let ghost dv = d.deep_view();
            let mut i: usize = 0;
            while i < d.len()
                invariant
                    i <= d.len(),
                    dv == d.deep_view(),
                    set.wf(),
                    set@.to_set() == dv.take(i as int).to_set().remove(base@),
                decreases d.len() - i,
            {
                let ghost before = set@.to_set();
                if !str_eq(d[i].as_str(), base) {
                    set.insert(d[i].clone());
                }
                assert(set@.to_set() =~= dv.take(i + 1).to_set().remove(base@)) by {
                    assert(dv.take(i + 1) =~= dv.take(i as int).push(dv[i as int]));
                    let t1 = dv.take(i + 1);
                    let t0 = dv.take(i as int);
                    assert forall|x: Seq<char>| t1.to_set().contains(x) <==> (t0.to_set().contains(x)
                        || x == dv[i as int]) by {
                        if t1.contains(x) {
                            let k = choose|k: int| 0 <= k < t1.len() && t1[k] == x;
                            if k < i {
                                assert(t0[k] == x);
                            }
                        }
                        if t0.contains(x) {
                            let k = choose|k: int| 0 <= k < t0.len() && t0[k] == x;
                            assert(t1[k] == x);
                        }
                        if x == dv[i as int] {
                            assert(t1[i as int] == x);
                        }
                    }
                }
                i = i + 1;
            }
            assert(dv.take(d.len() as int) =~= dv);
        },
        None => {
            assert(set@.to_set() =~= Set::<Seq<char>>::empty());
        },
    }
    let r = set.to_vec();
    proof {
        lemma_sorted_names(r.deep_view());
    }
    r
}

proof fn lemma_poly_lookup_step(keys: Seq<Seq<char>>, h: Seq<(Seq<char>, Seq<Seq<char>>)>, i: int)
    requires
        0 <= i < keys.len(),
    ensures
        poly_lookup_names(keys.take(i + 1), h) == poly_lookup_names(keys.take(i), h) + seq![keys[i]]
            + subclass_names(h, keys[i]),
{
    assert(keys.take(i + 1).drop_last() =~= keys.take(i));
}

proof fn lemma_poly_lookup_mono(keys: Seq<Seq<char>>, h: Seq<(Seq<char>, Seq<Seq<char>>)>, k: int, i: int)
    requires
        0 <= k <= i <= keys.len(),
    ensures
        poly_lookup_names(keys.take(k), h).len() <= poly_lookup_names(keys.take(i), h).len(),
    decreases i - k,
{
    if k < i {
        lemma_poly_lookup_mono(keys, h, k, i - 1);
        lemma_poly_lookup_step(keys, h, i - 1);
    }
}

/// What building the polymorphic groups gives, the resolver having answered
/// `log`: the models asked are those of each root and its variants; one
/// group per root, in order, made from its answers; and the set of names of
/// the groups and variants.
pub open spec fn polys_outcome(
    roots: NameMap<RootSources>,
    h: Seq<(Seq<char>, Seq<Seq<char>>)>,
    values: NameMap<String>,
    log: Seq<(Seq<char>, EntryShape)>,
    groups: Seq<PolymorphicModelEntry>,
    names: NameSet,
) -> bool {
    let keys = roots.keys();
    &&& looked_up_names(log) == poly_lookup_names(keys, h)
    &&& groups.len() == keys.len()
    &&& forall|i: int| 0 <= i < keys.len() ==> #[trigger] groups[i]@ == poly_group(
        keys[i],
        roots.vals()[i],
        h,
        values,
        looked_up(log).subrange(
            poly_lookup_names(keys.take(i), h).len() as int,
            poly_lookup_names(keys.take(i + 1), h).len() as int,
        ),
    )
    &&& names.wf()
    &&& names@.to_set() == poly_catalog_set(keys, roots.vals(), h, keys.len() as int)
    &&& forall|i: int| 0 <= i < keys.len() ==> #[trigger] subclasses_listed(h, keys[i])
}

/// Builds the group of each polymorphic root, in ascending order of root
/// name. For each root the base is resolved, then each of its RTTI
/// subclasses in ascending order (see [`poly_group`]): the subclasses become
/// the group's RTTI variants, whose all-fields lists put the base's fields
/// first; a root met in a protocol field also lists them as wire variants,
/// with the discriminator tags known for them, and contributes the base and
/// its subclasses to the returned catalogue names. A base with a `_type`
/// field gets a `std::string` discriminator.
pub fn build_polymorphic_models<R: TypeEntryResolver>(
    roots: &NameMap<RootSources>,
    hierarchy: &ClassHierarchy,
    resolver: &mut R,
    discriminator_values: &NameMap<String>,
) -> (r: (Vec<PolymorphicModelEntry>, NameSet))
    requires
        old(resolver).ready(),
        roots.wf(),
        discriminator_values.wf(),
    ensures
        final(resolver).ready(),
        answers_kept(&*old(resolver), &*final(resolver)),
        old(resolver).lookups().len() <= final(resolver).lookups().len(),
        final(resolver).lookups() == old(resolver).lookups() + final(resolver).lookups().skip(old(resolver).lookups().len() as int),
        polys_outcome(*roots, hierarchy.entries(), *discriminator_values, final(resolver).lookups().skip(old(resolver).lookups().len() as int), r.0@, r.1),
{
    let ghost h = hierarchy.entries();
    let ghost keys = roots.keys();
    let ghost vals = roots.vals();
    let ghost disc = *discriminator_values;
    let ghost log0 = resolver.lookups();
    let ghost mut log: Seq<(Seq<char>, EntryShape)> = Seq::empty();
    let mut models: Vec<PolymorphicModelEntry> = Vec::new();
    let mut catalog = NameSet::new();
    let n = roots.len();
    let mut i: usize = 0;
    assert(keys.take(0) =~= Seq::<Seq<char>>::empty());
    assert(looked_up_names(log) =~= poly_lookup_names(keys.take(0), h));
    assert(catalog@.to_set() =~= poly_catalog_set(keys, vals, h, 0));
    while i < n
        invariant
            i <= n,
            n == keys.len(),
            roots.wf(),
            discriminator_values.wf(),
            keys == roots.keys(),
            vals == roots.vals(),
            disc == *discriminator_values,
            h == hierarchy.entries(),
            resolver.lookups() == log0 + log,
            resolver.ready(),
            answers_kept(&*old(resolver), &*resolver),
            looked_up_names(log) == poly_lookup_names(keys.take(i as int), h),
            models.len() == i,
            forall|k: int| 0 <= k < i ==> #[trigger] models[k]@ == poly_group(
                keys[k],
                vals[k],
                h,
                disc,
                looked_up(log).subrange(
                    poly_lookup_names(keys.take(k), h).len() as int,
                    poly_lookup_names(keys.take(k + 1), h).len() as int,
                ),
            ),
            catalog.wf(),
            catalog@.to_set() == poly_catalog_set(keys, vals, h, i as int),
            forall|k: int| 0 <= k < i ==> #[trigger] subclasses_listed(h, keys[k]),
        decreases n - i,
    {
        let base_name = roots.key_at(i);
        let src: RootSources = *roots.value_at(i);
        let ghost bv = base_name@;
        let ghost start_log = log;
        let ghost start = log.len();
        let base_entry = resolver.find_type_entry(base_name.as_str());
        let ghost eb = base_entry@;
        proof {
            log = log.push((bv, eb));
        }
        let derived_names = subclass_list(hierarchy, base_name.as_str());
        let ghost names = derived_names.deep_view();
        assert(subclasses_listed(h, keys[i as int]));
        let mut rtti_subclasses: Vec<PolymorphicVariant> = Vec::new();
        let mut j: usize = 0;
        assert(names.take(0) =~= Seq::<Seq<char>>::empty());
        assert(looked_up_names(log) =~= looked_up_names(start_log) + seq![bv] + names.take(0));
        while j < derived_names.len()
            invariant
                j <= derived_names.len(),
                names == derived_names.deep_view(),
                resolver.lookups() == log0 + log,
                resolver.ready(),
                answers_kept(&*old(resolver), &*resolver),
            resolver.ready(),
            answers_kept(&*old(resolver), &*resolver),
                log.len() == start + 1 + j,
                log.take(start as int) == start_log,
                log[start as int] == (bv, eb),
                eb == base_entry@,
                looked_up_names(log) == looked_up_names(start_log) + seq![bv] + names.take(j as int),
                rtti_subclasses.len() == j,
                forall|m: int| 0 <= m < j ==> #[trigger] rtti_subclasses[m]@ == subclass_variant(
                    names[m],
                    eb.fields,
                    log[start + 1 + m].1,
                ),
            decreases derived_names.len() - j,
        {
            let derived_entry = resolver.find_type_entry(derived_names[j].as_str());
            let ghost ed = derived_entry@;
            let ghost prev = log;
            proof {
                log = log.push((names[j as int], ed));
                assert(log.take(start as int) =~= prev.take(start as int));
                assert(looked_up_names(log) =~= looked_up_names(prev).push(names[j as int]));
                assert(names.take(j + 1) =~= names.take(j as int).push(names[j as int]));
            }
            let v = polymorphic_variant_from_entry(derived_names[j].clone(), &base_entry.fields, derived_entry, None);
            rtti_subclasses.push(v);
            j = j + 1;
        }
        assert(names.take(names.len() as int) =~= names);
        // The wire variants.
        let mut variants: Vec<PolymorphicVariant> = Vec::new();
        if src.protocol_field {
            let mut m: usize = 0;
            while m < rtti_subclasses.len()
                invariant
                    m <= rtti_subclasses.len(),
                    discriminator_values.wf(),
                    disc == *discriminator_values,
                    variants.len() == m,
                    forall|q: int| 0 <= q < m ==> #[trigger] variants[q]@ == (VariantShape {
                        tag: tag_of(disc, rtti_subclasses[q]@.name),
                        ..rtti_subclasses[q]@
                    }),
                decreases rtti_subclasses.len() - m,
            {
                let mut v = rtti_subclasses[m].duplicate();
                v.tag = match discriminator_values.get(v.name.as_str()) {
                    Some(t) => Some(t.clone()),
                    None => None,
                };
                variants.push(v);
                m = m + 1;
            }
        }
        // The catalogue names.
        if src.protocol_field {
            let ghost before = catalog@.to_set();
            catalog.insert(base_name.clone());
            let mut m: usize = 0;
            while m < derived_names.len()
                invariant
                    m <= derived_names.len(),
                    names == derived_names.deep_view(),
                    catalog.wf(),
                    catalog@.to_set() == before.insert(bv).union(names.take(m as int).to_set()),
                decreases derived_names.len() - m,
            {
                catalog.insert(derived_names[m].clone());
                assert(catalog@.to_set() =~= before.insert(bv).union(names.take(m + 1).to_set())) by {
                    let t1 = names.take(m + 1);
                    let t0 = names.take(m as int);
                    assert forall|x: Seq<char>| t1.to_set().contains(x) <==> (t0.to_set().contains(x)
                        || x == names[m as int]) by {
                        if t1.contains(x) {
                            let k = choose|k: int| 0 <= k < t1.len() && t1[k] == x;
                            if k < m {
                                assert(t0[k] == x);
                            }
                        }
                        if t0.contains(x) {
                            let k = choose|k: int| 0 <= k < t0.len() && t0[k] == x;
                            assert(t1[k] == x);
                        }
                        if x == names[m as int] {
                            assert(t1[m as int] == x);
                        }
                    }
                }
                m = m + 1;
            }
            assert(names.take(names.len() as int) =~= names);
        }
        assert(catalog@.to_set() =~= poly_catalog_set(keys, vals, h, i + 1));
        let discriminator = if has_field_named(&base_entry.fields, "_type") {
            Some(PolymorphicDiscriminator {
                field: crate::text::owned("_type"),
                value_type: crate::text::owned("std::string"),
            })
        } else {
            None
        };
        let model = PolymorphicModelEntry {
            name: base_name.clone(),
            root_sources: src.names(),
            discriminator,
            base: PolymorphicBase { offset: base_entry.offset, fields: base_entry.fields },
            variants,
            rtti_subclasses,
        };
        proof {
            lemma_poly_lookup_step(keys, h, i as int);
            let lo = poly_lookup_names(keys.take(i as int), h).len() as int;
            let hi = poly_lookup_names(keys.take(i + 1), h).len() as int;
            assert(lo == start);
            assert(hi == log.len());
            let es = looked_up(log).subrange(lo, hi);
            assert(es[0] == eb);
            let subs = Seq::new(names.len(), |q: int| subclass_variant(names[q], eb.fields, es[1 + q]));
            assert(variants_view(model.rtti_subclasses@) =~= subs) by {
                assert forall|q: int| 0 <= q < names.len() implies variants_view(model.rtti_subclasses@)[q] == subs[q] by {
                    assert(es[1 + q] == log[start + 1 + q].1);
                }
            }
            if src.protocol_field {
                assert(variants_view(model.variants@) =~= subs.map_values(
                    |v: VariantShape| VariantShape { tag: tag_of(disc, v.name), ..v },
                ));
            } else {
                assert(variants_view(model.variants@) =~= Seq::<VariantShape>::empty());
            }
            assert(model@ == poly_group(keys[i as int], vals[i as int], h, disc, es));
            assert forall|k: int| 0 <= k < i implies #[trigger] looked_up(log).subrange(
                poly_lookup_names(keys.take(k), h).len() as int,
                poly_lookup_names(keys.take(k + 1), h).len() as int,
            ) == looked_up(start_log).subrange(
                poly_lookup_names(keys.take(k), h).len() as int,
                poly_lookup_names(keys.take(k + 1), h).len() as int,
            ) by {
                lemma_poly_lookup_mono(keys, h, k, k + 1);
                lemma_poly_lookup_mono(keys, h, k + 1, i as int);
                let a = poly_lookup_names(keys.take(k), h).len() as int;
                let b = poly_lookup_names(keys.take(k + 1), h).len() as int;
                assert(looked_up(log).subrange(a, b) =~= looked_up(start_log).subrange(a, b)) by {
                    assert forall|q: int| a <= q < b implies #[trigger] looked_up(log)[q] == looked_up(start_log)[q] by {
                        assert(log.take(start as int)[q] == log[q]);
                    }
                }
            }
            assert(looked_up_names(log) =~= poly_lookup_names(keys.take(i + 1), h));
        }
        models.push(model);
        i = i + 1;
    }
    assert(keys.take(n as int) =~= keys);
    assert(log =~= resolver.lookups().skip(log0.len() as int));
    (models, catalog)
}

// ---------------------------------------------------------------------------
// The catalogue of models
// ---------------------------------------------------------------------------

proof fn lemma_to_set_concat(a: Seq<Seq<char>>, b: Seq<Seq<char>>)
    ensures
        (a + b).to_set() == a.to_set().union(b.to_set()),
{
    assert forall|x: Seq<char>| (a + b).to_set().contains(x) <==> a.to_set().union(b.to_set()).contains(x) by {
        lemma_contains_concat(a, b, x);
    }
    assert((a + b).to_set() =~= a.to_set().union(b.to_set()));
}

/// Each wire variant of each group, with whether its group's base has fields.
pub open spec fn variant_pairs(polys: Seq<PolymorphicModelEntry>) -> Seq<(Seq<char>, bool)>
    decreases polys.len(),
{
    if polys.len() == 0 {
        seq![]
    } else {
        variant_pairs(polys.drop_last()) + poly_variant_pairs(polys.last())
    }
}

/// The wire variants of one group, with whether its base has fields.
pub open spec fn poly_variant_pairs(p: PolymorphicModelEntry) -> Seq<(Seq<char>, bool)> {
    p.variants@.map_values(|v: PolymorphicVariant| (v.name@, p.base.fields.len() > 0))
}

/// The names of a list of pairs.
pub open spec fn pair_names(ps: Seq<(Seq<char>, bool)>) -> Seq<Seq<char>> {
    ps.map_values(|p: (Seq<char>, bool)| p.0)
}

/// The variants the catalogue resolves, in order: the first occurrence of
/// each name that is neither top-level, a placeholder model nor a
/// `::Polymorphic` wrapper.
pub open spec fn first_variants(pairs: Seq<(Seq<char>, bool)>, top: Seq<Seq<char>>) -> Seq<(Seq<char>, bool)>
    decreases pairs.len(),
{
    if pairs.len() == 0 {
        seq![]
    } else {
        let r = first_variants(pairs.drop_last(), top);
        let n = pairs.last().0;
        if top.contains(n) || is_empty_model_spec(n) || has_suffix(n, "::Polymorphic"@) || pair_names(
            r,
        ).contains(n) {
            r
        } else {
            r.push(pairs.last())
        }
    }
}

/// The catalogue entry of a wire variant: an empty variant with an
/// initializer whose base has fields is a valid marker and carries no warning.
pub open spec fn variant_model(n: Seq<char>, base_has_fields: bool, e: EntryShape) -> EntryShape {
    EntryShape {
        name: n,
        offset: e.offset,
        fields: e.fields,
        warn: if e.fields.len() == 0 && e.offset is Some && base_has_fields {
            None
        } else {
            e.warn
        },
    }
}

/// The catalogue entry of a model found by the walk.
pub open spec fn plain_model(n: Seq<char>, e: EntryShape) -> EntryShape {
    EntryShape { name: n, offset: e.offset, fields: e.fields, warn: e.warn }
}

/// The names of the groups found through a protocol field.
pub open spec fn protocol_root_names(polys: Seq<PolymorphicModelEntry>) -> Seq<Seq<char>>
    decreases polys.len(),
{
    if polys.len() == 0 {
        seq![]
    } else if polys.last().root_sources.deep_view().contains("protocol_field"@) {
        protocol_root_names(polys.drop_last()).push(polys.last().name@)
    } else {
        protocol_root_names(polys.drop_last())
    }
}

/// The names of every wire variant of every group.
pub open spec fn all_variant_names(polys: Seq<PolymorphicModelEntry>) -> Seq<Seq<char>>
    decreases polys.len(),
{
    if polys.len() == 0 {
        seq![]
    } else {
        all_variant_names(polys.drop_last()) + polys.last().variants@.map_values(
            |v: PolymorphicVariant| v.name@,
        )
    }
}

/// The names of every RTTI subclass of every group.
pub open spec fn all_subclass_names(polys: Seq<PolymorphicModelEntry>) -> Seq<Seq<char>>
    decreases polys.len(),
{
    if polys.len() == 0 {
        seq![]
    } else {
        all_subclass_names(polys.drop_last()) + polys.last().rtti_subclasses@.map_values(
            |v: PolymorphicVariant| v.name@,
        )
    }
}

/// An RTTI subclass that no group sends on the wire.
pub open spec fn rtti_only(polys: Seq<PolymorphicModelEntry>, n: Seq<char>) -> bool {
    all_subclass_names(polys).contains(n) && !all_variant_names(polys).contains(n)
}

/// A model the walk drops: an empty RTTI-only subclass.
pub open spec fn dropped_model(polys: Seq<PolymorphicModelEntry>, n: Seq<char>, e: EntryShape) -> bool {
    e.fields.len() == 0 && rtti_only(polys, n)
}

/// The entries of a walk's log that the catalogue keeps.
pub open spec fn kept_entries(polys: Seq<PolymorphicModelEntry>, log: Seq<(Seq<char>, EntryShape)>) -> Seq<
    EntryShape,
>
    decreases log.len(),
{
    if log.len() == 0 {
        seq![]
    } else if dropped_model(polys, log.last().0, log.last().1) {
        kept_entries(polys, log.drop_last())
    } else {
        kept_entries(polys, log.drop_last()).push(log.last().1)
    }
}

/// The models a list of fields refers to.
pub open spec fn fields_model_refs(fs: Seq<FieldShape>) -> Seq<Seq<char>>
    decreases fs.len(),
{
    if fs.len() == 0 {
        seq![]
    } else {
        fields_model_refs(fs.drop_last()) + model_refs(fs.last())
    }
}

/// The models the fields of a list of entries refer to.
pub open spec fn entries_model_refs(es: Seq<EntryShape>) -> Seq<Seq<char>>
    decreases es.len(),
{
    if es.len() == 0 {
        seq![]
    } else {
        entries_model_refs(es.drop_last()) + fields_model_refs(es.last().fields)
    }
}

/// Everything the catalogue walk is led to: what the resolved variants
/// refer to, the protocol roots, what the top-level entries refer to, and
/// what the kept walked models refer to.
pub open spec fn catalog_refs(
    polys: Seq<PolymorphicModelEntry>,
    seeds: Seq<EntryShape>,
    log1: Seq<(Seq<char>, EntryShape)>,
    log3: Seq<(Seq<char>, EntryShape)>,
) -> Seq<Seq<char>> {
    entries_model_refs(looked_up(log1)) + protocol_root_names(polys) + entries_model_refs(seeds)
        + entries_model_refs(kept_entries(polys, log3))
}

/// The catalogue entry named `k`, given the variant lookups `log1` (made for
/// `firsts`) and the walk lookups `log3`.
pub open spec fn catalog_entry(
    polys: Seq<PolymorphicModelEntry>,
    firsts: Seq<(Seq<char>, bool)>,
    log1: Seq<(Seq<char>, EntryShape)>,
    log3: Seq<(Seq<char>, EntryShape)>,
    k: Seq<char>,
) -> Option<EntryShape> {
    let i = key_index(looked_up_names(log1), k);
    let j = key_index(looked_up_names(log3), k);
    if i >= 0 {
        Some(variant_model(k, firsts[i].1, log1[i].1))
    } else if j >= 0 && !dropped_model(polys, k, log3[j].1) {
        Some(plain_model(k, log3[j].1))
    } else {
        None
    }
}

/// The view of an optional model entry.
pub open spec fn opt_model_view(o: Option<ModelEntry>) -> Option<EntryShape> {
    match o {
        Some(m) => Some(m@),
        None => None,
    }
}

/// The names of a list of model entries.
pub open spec fn model_names(ms: Seq<ModelEntry>) -> Seq<Seq<char>> {
    ms.map_values(|m: ModelEntry| m.name@)
}

/// Queues the models the fields of `entry` refer to.
fn push_entry_model_refs(entry: &TypeDescriptorEntry, queue: &mut Vec<String>)
    ensures
        final(queue).deep_view() == old(queue).deep_view() + fields_model_refs(entry@.fields),
{
    let ghost q0 = queue.deep_view();
    let ghost fs = entry@.fields;
    let mut i: usize = 0;
    assert(q0 + fields_model_refs(fs.take(0)) =~= q0);
    while i < entry.fields.len()
        invariant
            i <= entry.fields.len(),
            fs == entry@.fields,
            fs.len() == entry.fields.len(),
            queue.deep_view() == q0 + fields_model_refs(fs.take(i as int)),
        decreases entry.fields.len() - i,
    {
        assert(fs.take(i + 1).drop_last() =~= fs.take(i as int));
        assert(fs.take(i + 1).last() == entry.fields[i as int]@);
        collect_model_refs_from_field(&entry.fields[i], queue);
        assert(q0 + fields_model_refs(fs.take(i as int)) + model_refs(entry.fields[i as int]@) =~= q0
            + fields_model_refs(fs.take(i + 1)));
        i = i + 1;
    }
    assert(fs.take(fs.len() as int) =~= fs);
}

/// The names of every wire variant, as a set.
fn variant_name_set(polys: &Vec<PolymorphicModelEntry>) -> (r: NameSet)
    ensures
        r.wf(),
        r@.to_set() == all_variant_names(polys@).to_set(),
{
    let mut set = NameSet::new();
    let mut p: usize = 0;
    assert(polys@.take(0) =~= Seq::<PolymorphicModelEntry>::empty());
    assert(set@.to_set() =~= all_variant_names(polys@.take(0)).to_set());
    while p < polys.len()
        invariant
            p <= polys.len(),
            set.wf(),
            set@.to_set() == all_variant_names(polys@.take(p as int)).to_set(),
        decreases polys.len() - p,
    {
        let vs = &polys[p].variants;
        let ghost names = vs@.map_values(|v: PolymorphicVariant| v.name@);
        let ghost before = set@.to_set();
        let mut v: usize = 0;
        assert(before.union(names.take(0).to_set()) =~= before);
        while v < vs.len()
            invariant
                v <= vs.len(),
                names == vs@.map_values(|v: PolymorphicVariant| v.name@),
                set.wf(),
                set@.to_set() == before.union(names.take(v as int).to_set()),
            decreases vs.len() - v,
        {
            set.insert(vs[v].name.clone());
            proof {
                assert(names.take(v + 1) =~= names.take(v as int) + seq![names[v as int]]);
                lemma_to_set_concat(names.take(v as int), seq![names[v as int]]);
                assert(seq![names[v as int]].to_set() =~= set![names[v as int]]) by {
                    assert(seq![names[v as int]][0] == names[v as int]);
                }
                assert(set@.to_set() =~= before.union(names.take(v + 1).to_set()));
            }
            v = v + 1;
        }
        proof {
            assert(names.take(names.len() as int) =~= names);
            assert(polys@.take(p + 1).drop_last() =~= polys@.take(p as int));
            lemma_to_set_concat(all_variant_names(polys@.take(p as int)), names);
            assert(set@.to_set() =~= all_variant_names(polys@.take(p + 1)).to_set());
        }
        p = p + 1;
    }
    assert(polys@.take(polys.len() as int) =~= polys@);
    set
}

/// The RTTI subclasses that no group sends on the wire, as a set.
fn rtti_only_set(polys: &Vec<PolymorphicModelEntry>) -> (r: NameSet)
    ensures
        r.wf(),
        forall|n: Seq<char>| #[trigger] r@.contains(n) <==> rtti_only(polys@, n),
{
    let variants = variant_name_set(polys);
    let mut set = NameSet::new();
    let mut p: usize = 0;
    assert(polys@.take(0) =~= Seq::<PolymorphicModelEntry>::empty());
    while p < polys.len()
        invariant
            p <= polys.len(),
            variants.wf(),
            variants@.to_set() == all_variant_names(polys@).to_set(),
            set.wf(),
            forall|n: Seq<char>| #[trigger] set@.contains(n) <==> (all_subclass_names(polys@.take(p as int)).contains(n)
                && !all_variant_names(polys@).contains(n)),
        decreases polys.len() - p,
    {
        let subs = &polys[p].rtti_subclasses;
        let ghost names = subs@.map_values(|v: PolymorphicVariant| v.name@);
        let ghost prior = all_subclass_names(polys@.take(p as int));
        let mut v: usize = 0;
        while v < subs.len()
            invariant
                v <= subs.len(),
                names == subs@.map_values(|v: PolymorphicVariant| v.name@),
                variants.wf(),
                variants@.to_set() == all_variant_names(polys@).to_set(),
                set.wf(),
                forall|n: Seq<char>| #[trigger] set@.contains(n) <==> ((prior + names.take(v as int)).contains(n)
                    && !all_variant_names(polys@).contains(n)),
            decreases subs.len() - v,
        {
            let ghost nv = names[v as int];
            let present = variants.contains(subs[v].name.as_str());
            assert(present == all_variant_names(polys@).contains(nv)) by {
                assert(variants@.to_set().contains(nv) == variants@.contains(nv));
            }
            if !present {
                set.insert(subs[v].name.clone());
            }
            assert forall|n: Seq<char>| #[trigger] set@.contains(n) <==> ((prior + names.take(v + 1)).contains(n)
                && !all_variant_names(polys@).contains(n)) by {
                assert(prior + names.take(v + 1) =~= (prior + names.take(v as int)) + seq![nv]);
                lemma_contains_concat(prior + names.take(v as int), seq![nv], n);
                assert(seq![nv][0] == nv);
                assert(set@.to_set().contains(n) == set@.contains(n));
            }
            v = v + 1;
        }
        proof {
            assert(names.take(names.len() as int) =~= names);
            assert(polys@.take(p + 1).drop_last() =~= polys@.take(p as int));
        }
        p = p + 1;
    }
    assert(polys@.take(polys.len() as int) =~= polys@);
    set
}

proof fn lemma_catalog_refs_push(
    polys: Seq<PolymorphicModelEntry>,
    seeds: Seq<EntryShape>,
    log1: Seq<(Seq<char>, EntryShape)>,
    log3: Seq<(Seq<char>, EntryShape)>,
    n: Seq<char>,
    e: EntryShape,
)
    ensures
        catalog_refs(polys, seeds, log1, log3.push((n, e))) == catalog_refs(polys, seeds, log1, log3) + (
        if dropped_model(polys, n, e) {
            Seq::<Seq<char>>::empty()
        } else {
            fields_model_refs(e.fields)
        }),
        looked_up_names(log3.push((n, e))) == looked_up_names(log3).push(n),
{
    let l = log3.push((n, e));
    assert(l.drop_last() =~= log3);
    let k = kept_entries(polys, log3);
    if !dropped_model(polys, n, e) {
        assert(k.push(e).drop_last() =~= k);
    }
    let x = entries_model_refs(looked_up(log1)) + protocol_root_names(polys) + entries_model_refs(seeds);
    assert(catalog_refs(polys, seeds, log1, log3) == x + entries_model_refs(k));
    if dropped_model(polys, n, e) {
        assert(x + entries_model_refs(k) + Seq::<Seq<char>>::empty() =~= x + entries_model_refs(k));
    } else {
        assert(x + (entries_model_refs(k) + fields_model_refs(e.fields)) =~= x + entries_model_refs(k)
            + fields_model_refs(e.fields));
    }
    assert(looked_up_names(l) =~= looked_up_names(log3).push(n));
}

/// The wire variants of the catalogue: each resolved once, its model stored,
/// what it refers to and the protocol roots queued.
fn catalog_variant_models<R: TypeEntryResolver>(
    list: &Vec<&TypeDescriptorEntry>,
    polymorphic_models: &Vec<PolymorphicModelEntry>,
    resolver: &mut R,
    visited: &mut NameSet,
    models: &mut NameMap<ModelEntry>,
    queue: &mut Vec<String>,
    Ghost(seeds): Ghost<Seq<EntryShape>>,
) -> (out: Ghost<Seq<(Seq<char>, EntryShape)>>)
    requires
        old(resolver).ready(),
        list@.map_values(|e: &TypeDescriptorEntry| e@) == seeds,
        old(visited)@ == Seq::<Seq<char>>::empty(),
        old(models).wf(),
        old(models).keys() == Seq::<Seq<char>>::empty(),
        old(queue)@ == Seq::<String>::empty(),
    ensures
        final(resolver).ready(),
        answers_kept(&*old(resolver), &*final(resolver)),
        ({
            let polys = polymorphic_models@;
            let top = entry_names(seeds);
            let firsts = first_variants(variant_pairs(polys), top);
            let log1 = out@;
            &&& final(resolver).lookups() == old(resolver).lookups() + log1
            &&& looked_up_names(log1) == pair_names(firsts)
            &&& log1.len() == firsts.len()
            &&& final(visited).wf()
            &&& final(visited)@.to_set() == looked_up_names(log1).to_set()
            &&& final(models).wf()
            &&& forall|k: Seq<char>| #[trigger] opt_model_view(final(models).spec_get(k)) == catalog_entry(
                polys,
                firsts,
                log1,
                Seq::<(Seq<char>, EntryShape)>::empty(),
                k,
            )
            &&& final(queue).deep_view().to_set() == (entries_model_refs(looked_up(log1)) + protocol_root_names(
                polys,
            )).to_set()
        }),
{
    let ghost polys = polymorphic_models@;
    let ghost log0 = resolver.lookups();
    let ghost top = entry_names(seeds);
    let ghost mut log1: Seq<(Seq<char>, EntryShape)> = Seq::empty();
    let ghost empty_log: Seq<(Seq<char>, EntryShape)> = Seq::empty();
    assert(queue.deep_view() =~= Seq::<Seq<char>>::empty());
    let mut p: usize = 0;
    assert(polys.take(0) =~= Seq::<PolymorphicModelEntry>::empty());
    assert(visited@.to_set() =~= looked_up_names(log1).to_set());
    assert(queue.deep_view().to_set() =~= (entries_model_refs(looked_up(log1)) + protocol_root_names(
        polys.take(0),
    )).to_set());
    assert forall|k: Seq<char>| #[trigger] opt_model_view(models.spec_get(k)) == catalog_entry(
        polys,
        first_variants(variant_pairs(polys.take(0)), top),
        log1,
        empty_log,
        k,
    ) by {
        models.lemma_domain(k);
    }
    while p < polymorphic_models.len()
        invariant
            p <= polymorphic_models.len(),
            polys == polymorphic_models@,
            list@.map_values(|e: &TypeDescriptorEntry| e@) == seeds,
            top == entry_names(seeds),
            resolver.lookups() == log0 + log1,
            resolver.ready(),
            answers_kept(&*old(resolver), &*resolver),
            looked_up_names(log1) == pair_names(first_variants(variant_pairs(polys.take(p as int)), top)),
            log1.len() == first_variants(variant_pairs(polys.take(p as int)), top).len(),
            visited.wf(),
            visited@.to_set() == looked_up_names(log1).to_set(),
            models.wf(),
            forall|k: Seq<char>| #[trigger] opt_model_view(models.spec_get(k)) == catalog_entry(
                polys,
                first_variants(variant_pairs(polys.take(p as int)), top),
                log1,
                empty_log,
                k,
            ),
            queue.deep_view().to_set() == (entries_model_refs(looked_up(log1)) + protocol_root_names(
                polys.take(p as int),
            )).to_set(),
            empty_log == Seq::<(Seq<char>, EntryShape)>::empty(),
        decreases polymorphic_models.len() - p,
    {
        let poly = &polymorphic_models[p];
        let ghost done = variant_pairs(polys.take(p as int));
        let ghost mine = poly_variant_pairs(*poly);
        let mut v: usize = 0;
        assert(done + mine.take(0) =~= done);
        while v < poly.variants.len()
            invariant
                v <= poly.variants.len(),
                polys == polymorphic_models@,
                *poly == polys[p as int],
                mine == poly_variant_pairs(*poly),
                mine.len() == poly.variants.len(),
                list@.map_values(|e: &TypeDescriptorEntry| e@) == seeds,
                top == entry_names(seeds),
                resolver.lookups() == log0 + log1,
                resolver.ready(),
                answers_kept(&*old(resolver), &*resolver),
            resolver.ready(),
            answers_kept(&*old(resolver), &*resolver),
                looked_up_names(log1) == pair_names(first_variants(done + mine.take(v as int), top)),
                log1.len() == first_variants(done + mine.take(v as int), top).len(),
                visited.wf(),
                visited@.to_set() == looked_up_names(log1).to_set(),
                models.wf(),
                forall|k: Seq<char>| #[trigger] opt_model_view(models.spec_get(k)) == catalog_entry(
                    polys,
                    first_variants(done + mine.take(v as int), top),
                    log1,
                    empty_log,
                    k,
                ),
                queue.deep_view().to_set() == (entries_model_refs(looked_up(log1)) + protocol_root_names(
                    polys.take(p as int),
                )).to_set(),
                empty_log == Seq::<(Seq<char>, EntryShape)>::empty(),
            decreases poly.variants.len() - v,
        {
            let vname = &poly.variants[v].name;
            let ghost n = vname@;
            let ghost pair = mine[v as int];
            let ghost fv = first_variants(done + mine.take(v as int), top);
            assert(pair == (n, poly.base.fields.len() > 0));
            assert((done + mine.take(v + 1)).drop_last() =~= done + mine.take(v as int));
            assert((done + mine.take(v + 1)).last() == pair);
            let vc = chars_of(vname.as_str());
            let seen = visited.contains(vname.as_str());
            assert(seen == pair_names(fv).contains(n)) by {
                assert(visited@.to_set().contains(n) == visited@.contains(n));
            }
            if names_entry_in(&list, vname.as_str()) || is_empty_model_type_name(vname.as_str())
                || ends_with_str(&vc, "::Polymorphic") || seen {
                assert(first_variants(done + mine.take(v + 1), top) == fv);
            } else {
                let entry = resolver.find_type_entry(vname.as_str());
                let ghost e = entry@;
                let ghost old_log = log1;
                proof {
                    log1 = log1.push((n, e));
                    assert(first_variants(done + mine.take(v + 1), top) == fv.push(pair));
                    assert(looked_up_names(log1) =~= looked_up_names(old_log).push(n));
                    assert(pair_names(fv.push(pair)) =~= pair_names(fv).push(n));
                }
                let warn = if entry.fields.len() == 0 && entry.offset.is_some() && poly.base.fields.len() > 0 {
                    None
                } else {
                    copy_opt_string(&entry.warn)
                };
                let ghost q0 = queue.deep_view();
                push_entry_model_refs(&entry, queue);
                let model = ModelEntry {
                    name: vname.clone(),
                    offset: entry.offset,
                    fields: entry.fields,
                    warn,
                };
                assert(model@ == variant_model(n, pair.1, e));
                let ghost mbefore = *models;
                models.set(vname.clone(), model);
                visited.insert(vname.clone());
                proof {
                    let fv2 = fv.push(pair);
                    assert forall|k: Seq<char>| #[trigger] opt_model_view(models.spec_get(k)) == catalog_entry(
                        polys,
                        fv2,
                        log1,
                        empty_log,
                        k,
                    ) by {
                        lemma_key_index_push(looked_up_names(old_log), n, k);
                        lemma_key_index_found(looked_up_names(old_log), k);
                        if k != n {
                            assert(opt_model_view(mbefore.spec_get(k)) == catalog_entry(polys, fv, old_log, empty_log, k));
                            let i = key_index(looked_up_names(old_log), k);
                            if i >= 0 {
                                assert(fv2[i] == fv[i]);
                                assert(log1[i] == old_log[i]);
                            }
                        }
                        lemma_key_index_found(empty_log.map_values(|q: (Seq<char>, EntryShape)| q.0), k);
                    }
                    assert(visited@.to_set() =~= looked_up_names(log1).to_set()) by {
                        assert(looked_up_names(log1) =~= looked_up_names(old_log) + seq![n]);
                        lemma_to_set_concat(looked_up_names(old_log), seq![n]);
                        assert(seq![n].to_set() =~= set![n]) by {
                            assert(seq![n][0] == n);
                        }
                    }
                    let a = entries_model_refs(looked_up(old_log));
                    let f = fields_model_refs(e.fields);
                    let pr = protocol_root_names(polys.take(p as int));
                    assert(looked_up(log1) =~= looked_up(old_log).push(e));
                    assert(looked_up(old_log).push(e).drop_last() =~= looked_up(old_log));
                    assert(entries_model_refs(looked_up(log1)) == a + f);
                    lemma_to_set_concat(q0, f);
                    lemma_to_set_concat(a + f, pr);
                    lemma_to_set_concat(a, f);
                    lemma_to_set_concat(a, pr);
                    assert(queue.deep_view().to_set() =~= (entries_model_refs(looked_up(log1)) + pr).to_set());
                }
            }
            v = v + 1;
        }
        assert(mine.take(mine.len() as int) =~= mine);
        assert(polys.take(p + 1).drop_last() =~= polys.take(p as int));
        assert(polys.take(p + 1).last() == *poly);
        let ghost pr0 = protocol_root_names(polys.take(p as int));
        if vec_contains_str(&poly.root_sources, "protocol_field") {
            let ghost q0 = queue.deep_view();
            queue.push(poly.name.clone());
            proof {
                assert(queue.deep_view() =~= q0 + seq![poly.name@]);
                assert(protocol_root_names(polys.take(p + 1)) == pr0.push(poly.name@));
                assert(pr0.push(poly.name@) =~= pr0 + seq![poly.name@]);
                let a = entries_model_refs(looked_up(log1));
                lemma_to_set_concat(q0, seq![poly.name@]);
                lemma_to_set_concat(a, pr0 + seq![poly.name@]);
                lemma_to_set_concat(a, pr0);
                lemma_to_set_concat(pr0, seq![poly.name@]);
                assert(queue.deep_view().to_set() =~= (a + protocol_root_names(polys.take(p + 1))).to_set());
            }
        }
        p = p + 1;
    }
    assert(polys.take(polys.len() as int) =~= polys);
    Ghost(log1)
}

/// The catalogue walk: pops names, resolving each new one that is not
/// passed over, and keeping what it finds unless it is an empty RTTI-only
/// subclass.
#[verifier::rlimit(60)]
#[verifier::spinoff_prover]
fn catalog_walk<R: TypeEntryResolver>(
    list: &Vec<&TypeDescriptorEntry>,
    polymorphic_models: &Vec<PolymorphicModelEntry>,
    rtti: &NameSet,
    resolver: &mut R,
    visited: &mut NameSet,
    models: &mut NameMap<ModelEntry>,
    queue: &mut Vec<String>,
    Ghost(seeds): Ghost<Seq<EntryShape>>,
    Ghost(log1): Ghost<Seq<(Seq<char>, EntryShape)>>,
) -> (out: Ghost<Seq<(Seq<char>, EntryShape)>>)
    requires
        old(resolver).ready(),
        list@.map_values(|e: &TypeDescriptorEntry| e@) == seeds,
        looked_up_names(log1) == pair_names(first_variants(variant_pairs(polymorphic_models@), entry_names(seeds))),
        log1.len() == first_variants(variant_pairs(polymorphic_models@), entry_names(seeds)).len(),
        rtti.wf(),
        forall|n: Seq<char>| #[trigger] rtti@.contains(n) <==> rtti_only(polymorphic_models@, n),
        old(visited).wf(),
        old(visited)@.to_set() == looked_up_names(log1).to_set(),
        old(models).wf(),
        forall|k: Seq<char>| #[trigger] opt_model_view(old(models).spec_get(k)) == catalog_entry(
            polymorphic_models@,
            first_variants(variant_pairs(polymorphic_models@), entry_names(seeds)),
            log1,
            Seq::<(Seq<char>, EntryShape)>::empty(),
            k,
        ),
        old(queue).deep_view().to_set() == catalog_refs(
            polymorphic_models@,
            seeds,
            log1,
            Seq::<(Seq<char>, EntryShape)>::empty(),
        ).to_set(),
    ensures
        final(resolver).ready(),
        answers_kept(&*old(resolver), &*final(resolver)),
        ({
            let polys = polymorphic_models@;
            let top = entry_names(seeds);
            let firsts = first_variants(variant_pairs(polys), top);
            let log3 = out@;
            &&& final(resolver).lookups() == old(resolver).lookups() + log3
            &&& forall|n: Seq<char>| #[trigger] final(visited)@.to_set().contains(n) ==> looked_up_names(log1).contains(n)
                || skipped_by_walk(n, top) || looked_up_names(log3).contains(n)
            &&& forall|i: int, j: int| 0 <= i < j < log3.len() ==> log3[i].0 != log3[j].0
            &&& forall|i: int| 0 <= i < log3.len() ==> !skipped_by_walk(#[trigger] log3[i].0, top)
                && !looked_up_names(log1).contains(log3[i].0)
                && catalog_refs(polys, seeds, log1, log3.take(i)).contains(log3[i].0)
            &&& log3.len() < u64::MAX ==> forall|n: Seq<char>| #[trigger] catalog_refs(polys, seeds, log1, log3).contains(n)
                ==> final(visited)@.to_set().contains(n)
            &&& final(models).wf()
            &&& forall|k: Seq<char>| #[trigger] opt_model_view(final(models).spec_get(k)) == catalog_entry(
                polys,
                firsts,
                log1,
                log3,
                k,
            )
        }),
{
    let ghost polys = polymorphic_models@;
    let ghost log0 = resolver.lookups();
    let ghost top = entry_names(seeds);
    let ghost firsts = first_variants(variant_pairs(polys), top);
    let ghost empty_log: Seq<(Seq<char>, EntryShape)> = Seq::empty();
    let ghost mut log3: Seq<(Seq<char>, EntryShape)> = Seq::empty();
    let mut fuel: u64 = u64::MAX;
    proof {
        assert forall|q: Seq<char>| #[trigger] queue.deep_view().contains(q) <==> catalog_refs(
            polys,
            seeds,
            log1,
            log3,
        ).contains(q) by {
            assert(queue.deep_view().to_set().contains(q) == queue.deep_view().contains(q));
            assert(catalog_refs(polys, seeds, log1, log3).to_set().contains(q) == catalog_refs(
                polys,
                seeds,
                log1,
                log3,
            ).contains(q));
        }
        assert forall|n: Seq<char>| #[trigger] visited@.to_set().contains(n) <==> looked_up_names(log1).contains(n) by {
            assert(looked_up_names(log1).to_set().contains(n) == looked_up_names(log1).contains(n));
        }
        assert(looked_up_names(log3) =~= Seq::<Seq<char>>::empty());
        assert forall|k: Seq<char>| #[trigger] opt_model_view(models.spec_get(k)) == catalog_entry(
            polys,
            firsts,
            log1,
            log3,
            k,
        ) by {
            assert(opt_model_view(models.spec_get(k)) == catalog_entry(polys, firsts, log1, empty_log, k));
            assert(log3 == empty_log);
        }
    }
    while queue.len() > 0
        invariant
            list@.map_values(|e: &TypeDescriptorEntry| e@) == seeds,
            top == entry_names(seeds),
            polys == polymorphic_models@,
            firsts == first_variants(variant_pairs(polys), top),
            looked_up_names(log1) == pair_names(firsts),
            log1.len() == firsts.len(),
            resolver.lookups() == log0 + log3,
            resolver.ready(),
            answers_kept(&*old(resolver), &*resolver),
            rtti.wf(),
            forall|n: Seq<char>| #[trigger] rtti@.contains(n) <==> rtti_only(polys, n),
            visited.wf(),
            forall|n: Seq<char>| #[trigger] visited@.to_set().contains(n) ==> looked_up_names(log1).contains(n)
                || skipped_by_walk(n, top) || looked_up_names(log3).contains(n),
            forall|n: Seq<char>| looked_up_names(log1).contains(n) || looked_up_names(log3).contains(n)
                ==> #[trigger] visited@.to_set().contains(n),
            forall|i: int, j: int| 0 <= i < j < log3.len() ==> log3[i].0 != log3[j].0,
            forall|i: int| 0 <= i < log3.len() ==> !skipped_by_walk(#[trigger] log3[i].0, top)
                && !looked_up_names(log1).contains(log3[i].0)
                && catalog_refs(polys, seeds, log1, log3.take(i)).contains(log3[i].0),
            forall|q: Seq<char>| #[trigger] queue.deep_view().contains(q) ==> catalog_refs(polys, seeds, log1, log3).contains(q),
            forall|n: Seq<char>| #[trigger] catalog_refs(polys, seeds, log1, log3).contains(n)
                ==> queue.deep_view().contains(n) || visited@.to_set().contains(n),
            models.wf(),
            forall|k: Seq<char>| #[trigger] opt_model_view(models.spec_get(k)) == catalog_entry(
                polys,
                firsts,
                log1,
                log3,
                k,
            ),
            fuel as int + log3.len() == u64::MAX,
        ensures
            queue.len() == 0 || fuel == 0,
        decreases fuel, queue.len(),
    {
        if fuel == 0 {
            break;
        }
        let ghost qv = queue.deep_view();
        let ghost all = catalog_refs(polys, seeds, log1, log3);
        let ghost vs0 = visited@.to_set();
        let ghost vseq0 = visited@;
        let name = queue.pop().unwrap();
        let ghost p = name@;
        assert(qv =~= queue.deep_view().push(p));
        assert forall|n: Seq<char>| qv.contains(n) implies n == p || #[trigger] queue.deep_view().contains(n) by {
            let k = choose|k: int| 0 <= k < qv.len() && qv[k] == n;
            if k < qv.len() - 1 {
                assert(queue.deep_view()[k] == n);
            }
        }
        assert forall|q: Seq<char>| #[trigger] queue.deep_view().contains(q) implies qv.contains(q) by {
            let k = choose|k: int| 0 <= k < queue.deep_view().len() && queue.deep_view()[k] == q;
            assert(qv[k] == q);
        }
        let fresh = visited.insert(name.clone());
        assert(fresh == !vs0.contains(p)) by {
            assert(vs0.contains(p) == vseq0.contains(p));
        }
        assert(visited@.to_set() == vs0.insert(p));
        if !fresh {
            assert(visited@.to_set() =~= vs0);
            continue;
        }
        let nc = chars_of(name.as_str());
        if is_empty_model_type_name(name.as_str()) || ends_with_str(&nc, "::Polymorphic")
            || is_primitive_or_builtin_type(name.as_str()) || names_entry_in(list, name.as_str()) {
            assert(skipped_by_walk(p, top));
            assert forall|n: Seq<char>| #[trigger] visited@.to_set().contains(n) implies looked_up_names(log1).contains(n)
                || skipped_by_walk(n, top) || looked_up_names(log3).contains(n) by {
                if n != p {
                    assert(vs0.contains(n));
                }
            }
            continue;
        }
        if models.contains_key(name.as_str()) {
            proof {
                models.lemma_domain(p);
                assert(opt_model_view(models.spec_get(p)) == catalog_entry(polys, firsts, log1, log3, p));
                assert(catalog_entry(polys, firsts, log1, log3, p) is Some);
                lemma_key_index_found(looked_up_names(log1), p);
                lemma_key_index_found(looked_up_names(log3), p);
                assert(looked_up_names(log1).contains(p) || looked_up_names(log3).contains(p));
            }
            assert forall|n: Seq<char>| #[trigger] visited@.to_set().contains(n) implies looked_up_names(log1).contains(n)
                || skipped_by_walk(n, top) || looked_up_names(log3).contains(n) by {
                if n != p {
                    assert(vs0.contains(n));
                }
            }
            continue;
        }
        let entry = resolver.find_type_entry(name.as_str());
        fuel = fuel - 1;
        let ghost e = entry@;
        let ghost old_log = log3;
        proof {
            lemma_catalog_refs_push(polys, seeds, log1, log3, p, e);
            log3 = log3.push((p, e));
            assert(!looked_up_names(log1).contains(p));
            assert(!looked_up_names(old_log).contains(p));
            assert forall|i: int| 0 <= i < old_log.len() implies log3.take(i) == old_log.take(i) by {
                assert(log3.take(i) =~= old_log.take(i));
            }
            assert(log3.take(old_log.len() as int) =~= old_log);
            assert(log3[old_log.len() as int].0 == p);
            assert forall|i: int| 0 <= i < old_log.len() implies old_log[i].0 != p by {
                assert(looked_up_names(old_log)[i] == old_log[i].0);
            }
            assert(qv[qv.len() - 1] == p);
            assert(qv.contains(p));
            assert(all.contains(p));
        }
        let dropped = entry.fields.len() == 0 && rtti.contains(name.as_str());
        let ghost mbefore = *models;
        let ghost q1 = queue.deep_view();
        if !dropped {
            push_entry_model_refs(&entry, queue);
            let model = ModelEntry { name: name.clone(), offset: entry.offset, fields: entry.fields, warn: entry.warn };
            assert(model@ == plain_model(p, e));
            models.set(name, model);
        }
        proof {
            let extra = if dropped_model(polys, p, e) {
                Seq::<Seq<char>>::empty()
            } else {
                fields_model_refs(e.fields)
            };
            assert(queue.deep_view() == q1 + extra) by {
                if dropped {
                    assert(q1 + extra =~= q1);
                }
            }
            assert forall|q: Seq<char>| #[trigger] queue.deep_view().contains(q) implies catalog_refs(
                polys,
                seeds,
                log1,
                log3,
            ).contains(q) by {
                lemma_contains_concat(q1, extra, q);
                lemma_contains_concat(all, extra, q);
            }
            assert forall|n: Seq<char>| #[trigger] catalog_refs(polys, seeds, log1, log3).contains(n)
                implies queue.deep_view().contains(n) || visited@.to_set().contains(n) by {
                lemma_contains_concat(all, extra, n);
                lemma_contains_concat(q1, extra, n);
            }
            assert forall|n: Seq<char>| looked_up_names(log1).contains(n) || looked_up_names(log3).contains(n)
                implies #[trigger] visited@.to_set().contains(n) by {
                lemma_contains_concat(looked_up_names(old_log), seq![p], n);
                assert(looked_up_names(old_log).push(p) =~= looked_up_names(old_log) + seq![p]);
            }
            assert forall|n: Seq<char>| #[trigger] visited@.to_set().contains(n) implies looked_up_names(log1).contains(n)
                || skipped_by_walk(n, top) || looked_up_names(log3).contains(n) by {
                lemma_contains_concat(looked_up_names(old_log), seq![p], n);
                assert(looked_up_names(old_log).push(p) =~= looked_up_names(old_log) + seq![p]);
                if n == p {
                    assert(seq![p][0] == p);
                }
            }
            assert forall|k: Seq<char>| #[trigger] opt_model_view(models.spec_get(k)) == catalog_entry(
                polys,
                firsts,
                log1,
                log3,
                k,
            ) by {
                lemma_key_index_push(looked_up_names(old_log), p, k);
                lemma_key_index_found(looked_up_names(old_log), p);
                lemma_key_index_found(looked_up_names(log1), p);
                if k != p {
                    assert(opt_model_view(mbefore.spec_get(k)) == catalog_entry(polys, firsts, log1, old_log, k));
                    let j = key_index(looked_up_names(old_log), k);
                    lemma_key_index_found(looked_up_names(old_log), k);
                    if j >= 0 {
                        assert(log3[j] == old_log[j]);
                    }
                } else {
                    assert(opt_model_view(mbefore.spec_get(p)) == catalog_entry(polys, firsts, log1, old_log, p));
                }
            }
        }
    }
    assert(log3.len() < u64::MAX ==> queue.len() == 0);
    assert forall|n: Seq<char>| log3.len() < u64::MAX && #[trigger] catalog_refs(polys, seeds, log1, log3).contains(n)
        implies visited@.to_set().contains(n) by {
        if queue.deep_view().contains(n) {
            let k = choose|k: int| 0 <= k < queue.deep_view().len() && queue.deep_view()[k] == n;
        }
    }
    Ghost(log3)
}

/// Queues what the top-level entries refer to.
fn catalog_seed_refs(
    list: &Vec<&TypeDescriptorEntry>,
    queue: &mut Vec<String>,
    Ghost(s1): Ghost<Seq<Seq<char>>>,
    Ghost(seeds): Ghost<Seq<EntryShape>>,
)
    requires
        list@.map_values(|e: &TypeDescriptorEntry| e@) == seeds,
        old(queue).deep_view().to_set() == s1.to_set(),
    ensures
        final(queue).deep_view().to_set() == (s1 + entries_model_refs(seeds)).to_set(),
{
    let mut s: usize = 0;
    assert(seeds.take(0) =~= Seq::<EntryShape>::empty());
    assert(s1 + entries_model_refs(seeds.take(0)) =~= s1);
    while s < list.len()
        invariant
            s <= list.len(),
            list@.map_values(|e: &TypeDescriptorEntry| e@) == seeds,
            seeds.len() == list.len(),
            queue.deep_view().to_set() == (s1 + entries_model_refs(seeds.take(s as int))).to_set(),
        decreases list.len() - s,
    {
        let ghost q0 = queue.deep_view();
        assert(seeds.take(s + 1).drop_last() =~= seeds.take(s as int));
        assert(seeds.take(s + 1).last() == list[s as int]@);
        push_entry_model_refs(list[s], queue);
        proof {
            let f = fields_model_refs(list[s as int]@.fields);
            let a = entries_model_refs(seeds.take(s as int));
            lemma_to_set_concat(q0, f);
            lemma_to_set_concat(s1 + a, f);
            assert(s1 + entries_model_refs(seeds.take(s + 1)) =~= s1 + a + f);
        }
        s = s + 1;
    }
    assert(seeds.take(seeds.len() as int) =~= seeds);

}

/// What building the model catalogue gives, the resolver having answered
/// `log`: first the variants to list, then a walk that asked each model
/// once, only models the walk reaches, and (unless it was cut short) every
/// one of them; the catalogue in name order, each entry as the answers make
/// it, and every model that belongs in it.
pub open spec fn catalog_outcome(
    packets: Seq<PacketEntry>,
    events: Seq<EventEntry>,
    polys: Seq<PolymorphicModelEntry>,
    log: Seq<(Seq<char>, EntryShape)>,
    r: Seq<ModelEntry>,
) -> bool {
    let seeds = top_level_entries(packets, events);
    let top = entry_names(seeds);
    let firsts = first_variants(variant_pairs(polys), top);
    let log1 = log.take(firsts.len() as int);
    let log3 = log.skip(firsts.len() as int);
    let names3 = looked_up_names(log3);
    &&& firsts.len() <= log.len()
    &&& looked_up_names(log1) == pair_names(firsts)
    &&& forall|i: int, j: int| 0 <= i < j < names3.len() ==> names3[i] != names3[j]
    &&& forall|i: int| 0 <= i < names3.len() ==> !skipped_by_walk(#[trigger] names3[i], top)
        && !pair_names(firsts).contains(names3[i])
        && catalog_refs(polys, seeds, log1, log3.take(i)).contains(names3[i])
    &&& names3.len() < u64::MAX ==> forall|n: Seq<char>| #[trigger] catalog_refs(polys, seeds, log1, log3).contains(n)
        && !skipped_by_walk(n, top) && !pair_names(firsts).contains(n) ==> names3.contains(n)
    &&& strictly_sorted(model_names(r))
    &&& forall|m: int| 0 <= m < r.len() ==> catalog_entry(polys, firsts, log1, log3, #[trigger] r[m].name@)
        == Some(r[m]@)
    &&& forall|k: Seq<char>| #[trigger] catalog_entry(polys, firsts, log1, log3, k) is Some ==> model_names(r).contains(k)
}

/// Builds the catalogue of standalone models, in ascending order of name.
/// First each wire variant is resolved, once per name, unless it is a
/// top-level type, a placeholder model or a `::Polymorphic` wrapper (see
/// [`first_variants`]); a variant keeps its local fields, and an empty one
/// with an initializer whose base has fields carries no warning. Then a walk
/// resolves, once each, every name that the resolved variants, the protocol
/// roots, the top-level entries and the models it keeps refer to, except the
/// names it passes over ([`skipped_by_walk`]) and the variants already
/// resolved; an empty RTTI-only subclass it meets is dropped (see
/// [`catalog_entry`]).
#[verifier::rlimit(100)]
#[verifier::spinoff_prover]
pub fn build_model_catalog<R: TypeEntryResolver>(
    packets: &Vec<PacketEntry>,
    events: &Vec<EventEntry>,
    polymorphic_models: &Vec<PolymorphicModelEntry>,
    resolver: &mut R,
) -> (r: Vec<ModelEntry>)
    requires
        old(resolver).ready(),
    ensures
        final(resolver).ready(),
        answers_kept(&*old(resolver), &*final(resolver)),
        old(resolver).lookups().len() <= final(resolver).lookups().len(),
        final(resolver).lookups() == old(resolver).lookups() + final(resolver).lookups().skip(old(resolver).lookups().len() as int),
        catalog_outcome(packets@, events@, polymorphic_models@, final(resolver).lookups().skip(old(resolver).lookups().len() as int), r@),
{
    let ghost polys = polymorphic_models@;
    let ghost log0 = resolver.lookups();
    let list = top_level_list(packets, events);
    let ghost seeds = top_level_entries(packets@, events@);
    let ghost top = entry_names(seeds);
    let rtti = rtti_only_set(polymorphic_models);
    let mut visited = NameSet::new();
    let mut models: NameMap<ModelEntry> = NameMap::new();
    let mut queue: Vec<String> = Vec::new();
    assert(queue@ =~= Seq::<String>::empty());

    // 1. The wire variants.
    let Ghost(log1) = catalog_variant_models(
        &list,
        polymorphic_models,
        resolver,
        &mut visited,
        &mut models,
        &mut queue,
        Ghost(seeds),
    );
    let ghost firsts = first_variants(variant_pairs(polys), top);
    let ghost s1 = entries_model_refs(looked_up(log1)) + protocol_root_names(polys);

    // 2. What the top-level entries refer to.
    catalog_seed_refs(&list, &mut queue, Ghost(s1), Ghost(seeds));

    // 3. The walk.
    proof {
        let e3 = Seq::<(Seq<char>, EntryShape)>::empty();
        assert(kept_entries(polys, e3) =~= Seq::<EntryShape>::empty());
        assert(catalog_refs(polys, seeds, log1, e3) =~= s1 + entries_model_refs(seeds));
    }
    let ghost log01 = resolver.lookups();
    let Ghost(log3) = catalog_walk(
        &list,
        polymorphic_models,
        &rtti,
        resolver,
        &mut visited,
        &mut models,
        &mut queue,
        Ghost(seeds),
        Ghost(log1),
    );
    let r = models.into_values();
    proof {
        let log = resolver.lookups().skip(log0.len() as int);
        assert(resolver.lookups() =~= log0 + (log1 + log3));
        assert(log =~= log1 + log3);
        assert forall|n: Seq<char>| log3.len() < u64::MAX && #[trigger] catalog_refs(polys, seeds, log1, log3).contains(n)
            && !skipped_by_walk(n, top) && !pair_names(firsts).contains(n) implies looked_up_names(log3).contains(n) by {
            assert(visited@.to_set().contains(n));
        }
        assert(log.take(firsts.len() as int) =~= log1);
        assert(log.skip(firsts.len() as int) =~= log3);
        let keys = models.keys();
        assert forall|m: int| 0 <= m < r.len() implies catalog_entry(polys, firsts, log1, log3, #[trigger] r[m].name@)
            == Some(r[m]@) && r[m].name@ == keys[m] by {
            models.lemma_get_at(m);
            assert(opt_model_view(models.spec_get(keys[m])) == catalog_entry(polys, firsts, log1, log3, keys[m]));
        }
        assert(model_names(r@) =~= keys);
        assert forall|k: Seq<char>| #[trigger] catalog_entry(polys, firsts, log1, log3, k) is Some implies model_names(
            r@,
        ).contains(k) by {
            models.lemma_domain(k);
            assert(opt_model_view(models.spec_get(k)) == catalog_entry(polys, firsts, log1, log3, k));
            assert(keys.contains(k));
            assert(model_names(r@).contains(k));
        }
        assert forall|i: int| 0 <= i < looked_up_names(log3).len() implies !pair_names(firsts).contains(
            #[trigger] looked_up_names(log3)[i],
        ) by {
            assert(looked_up_names(log3)[i] == log3[i].0);
        }
    }
    r
}

/// The entry of a resolved model.
pub fn type_entry_from_resolved(resolved: ResolvedModel) -> (r: TypeDescriptorEntry)
    ensures
        r@ == resolved@,
{
    TypeDescriptorEntry {
        offset: resolved.offset,
        name: resolved.name,
        fields: resolved.fields,
        warn: resolved.warn,
    }
}


// ---------------------------------------------------------------------------
// Version detection
// ---------------------------------------------------------------------------

/// A version string such as `25.11.2.6413` or `25.11.2:6413`.
pub const VERSION_PATTERN: &'static str = "\\d+\\.\\d+\\.\\d+[\\.:]\\d+";

/// A separator of version components.
pub open spec fn version_separator(c: char) -> bool {
    c == '.' || c == ':'
}

/// The pieces of `s` between version separators, scanning from `i` with
/// `cur` already read.
pub open spec fn version_pieces_from(s: Seq<char>, i: int, cur: Seq<char>) -> Seq<Seq<char>>
    decreases s.len() - i,
{
    if i < 0 || i >= s.len() {
        seq![cur]
    } else if version_separator(s[i]) {
        seq![cur] + version_pieces_from(s, i + 1, Seq::empty())
    } else {
        version_pieces_from(s, i + 1, cur.push(s[i]))
    }
}

/// The pieces of `s` between `.` and `:` (`str::split` on both).
pub open spec fn version_pieces(s: Seq<char>) -> Seq<Seq<char>> {
    version_pieces_from(s, 0, Seq::empty())
}

fn split_version(s: &[char]) -> (r: Vec<Vec<char>>)
    ensures
        r.deep_view() == version_pieces(s@),
{
    let mut out: Vec<Vec<char>> = Vec::new();
    let mut cur: Vec<char> = Vec::new();
    let mut i: usize = 0;
    while i < s.len()
        invariant
            i <= s.len(),
            out.deep_view() + version_pieces_from(s@, i as int, cur@) == version_pieces(s@),
        decreases s.len() - i,
    {
        let ghost before = out.deep_view();
        if s[i] == '.' || s[i] == ':' {
            let ghost cv = cur@;
            crate::text::push_chars(&mut out, cur);
            cur = Vec::new();
            assert(before + version_pieces_from(s@, i as int, cv) =~= out.deep_view() + version_pieces_from(
                s@,
                i + 1,
                cur@,
            ));
        } else {
            cur.push(s[i]);
        }
        i = i + 1;
    }
    let ghost before = out.deep_view();
    let ghost cv = cur@;
    crate::text::push_chars(&mut out, cur);
    assert(before + version_pieces_from(s@, i as int, cv) =~= out.deep_view());
    out
}

/// The version a match of [`VERSION_PATTERN`] gives: its first three
/// components joined with `.`, and the fourth as the build number.
pub open spec fn version_of_match(m: Seq<u8>) -> Option<(Seq<char>, u32)> {
    if vstd::utf8::valid_utf8(m) {
        let parts = version_pieces(vstd::utf8::decode_utf8(m));
        if parts.len() >= 4 {
            match crate::text::parse_u32_spec(parts[3]) {
                Some(b) => Some((crate::text::join_seqs(parts.take(3), "."@), b)),
                None => None,
            }
        } else {
            None
        }
    } else {
        None
    }
}

/// The version of the first match, from `k` on, that gives one.
pub open spec fn first_version(ms: Seq<Seq<u8>>, k: int) -> Option<(Seq<char>, u32)>
    decreases ms.len() - k,
{
    if k < 0 || k >= ms.len() {
        None
    } else {
        match version_of_match(ms[k]) {
            Some(v) => Some(v),
            None => first_version(ms, k + 1),
        }
    }
}

/// The version embedded in a binary: that of the first match of
/// [`VERSION_PATTERN`] that gives one.
pub open spec fn detected_version(bytes: Seq<u8>) -> Option<(Seq<char>, u32)> {
    match regex_byte_matches(VERSION_PATTERN@, bytes) {
        Some(ms) => first_version(ms, 0),
        None => None,
    }
}

/// The version of the first of the regular-expression matches `ms` that
/// gives one (see [`version_of_match`]).
pub fn version_from_matches(ms: &Vec<Vec<u8>>) -> (r: Option<AppVersion>)
    ensures
        match first_version(ms.deep_view(), 0) {
            Some((v, b)) => r matches Some(a) && a.version@ == v && a.build == b,
            None => r is None,
        },
{
    let ghost mv = ms.deep_view();
    let mut k: usize = 0;
    while k < ms.len()
        invariant
            k <= ms.len(),
            mv == ms.deep_view(),
            first_version(mv, 0) == first_version(mv, k as int),
        decreases ms.len() - k,
    {
        assert(mv[k as int] == ms[k as int]@);
        if let Some(s) = crate::pe::utf8_str(ms[k].as_slice()) {
            let cs = chars_of(s);
            let parts = split_version(&cs);
            if parts.len() >= 4 {
                let last = string_of(&parts[3]);
                assert(parts.deep_view()[3] == parts[3]@);
                if let Some(build) = crate::text::parse_u32(last.as_str()) {
                    let mut head: Vec<Vec<char>> = Vec::new();
                    assert(head.deep_view() =~= Seq::<Seq<char>>::empty());
                    crate::text::push_chars(&mut head, crate::text::slice_of(&parts[0], 0, parts[0].len()));
                    crate::text::push_chars(&mut head, crate::text::slice_of(&parts[1], 0, parts[1].len()));
                    crate::text::push_chars(&mut head, crate::text::slice_of(&parts[2], 0, parts[2].len()));
                    assert(head.deep_view() =~= parts.deep_view().take(3)) by {
                        assert(parts.deep_view()[0] == parts[0]@);
                        assert(parts.deep_view()[1] == parts[1]@);
                        assert(parts.deep_view()[2] == parts[2]@);
                        assert(parts[0]@.subrange(0, parts[0]@.len() as int) =~= parts[0]@);
                        assert(parts[1]@.subrange(0, parts[1]@.len() as int) =~= parts[1]@);
                        assert(parts[2]@.subrange(0, parts[2]@.len() as int) =~= parts[2]@);
                    }
                    let dot = chars_of(".");
                    let version = string_of(&crate::text::join(&head, &dot));
                    return Some(AppVersion { version, build });
                }
            }
        }
        k = k + 1;
    }
    None
}

/// Finds the version embedded in a binary (see [`detected_version`]).
pub fn detect_version_from_bytes(bytes: &[u8]) -> (r: Option<AppVersion>)
    ensures
        match detected_version(bytes@) {
            Some((v, b)) => r matches Some(a) && a.version@ == v && a.build == b,
            None => r is None,
        },
{
    match regex_find_all_bytes(VERSION_PATTERN, bytes) {
        Some(ms) => version_from_matches(&ms),
        None => None,
    }
}


// ---------------------------------------------------------------------------
// Ordering by opcode
// ---------------------------------------------------------------------------

/// Where an item of key `key` goes in `s` (sorted by key) so that it follows
/// every item of an equal or smaller key, searching from `i`.
pub open spec fn key_upper<T>(s: Seq<(u32, T)>, key: u32, i: int) -> int
    decreases s.len() - i,
{
    if i < 0 || i >= s.len() {
        s.len() as int
    } else if s[i].0 > key {
        i
    } else {
        key_upper(s, key, i + 1)
    }
}

/// `s` sorted by key, items of equal keys keeping their order (a stable
/// sort, as `sort_by_key`).
pub open spec fn keyed_sort<T>(s: Seq<(u32, T)>) -> Seq<(u32, T)>
    decreases s.len(),
{
    if s.len() == 0 {
        s
    } else {
        let p = keyed_sort(s.drop_last());
        p.insert(key_upper(p, s.last().0, 0), s.last())
    }
}

proof fn lemma_key_upper_bounds<T>(s: Seq<(u32, T)>, key: u32, i: int)
    requires
        0 <= i <= s.len(),
    ensures
        i <= key_upper(s, key, i) <= s.len(),
    decreases s.len() - i,
{
    if i < s.len() && s[i].0 <= key {
        lemma_key_upper_bounds(s, key, i + 1);
    }
}

proof fn lemma_keyed_sort_len<T>(s: Seq<(u32, T)>)
    ensures
        keyed_sort(s).len() == s.len(),
    decreases s.len(),
{
    if s.len() > 0 {
        lemma_keyed_sort_len(s.drop_last());
        lemma_key_upper_bounds(keyed_sort(s.drop_last()), s.last().0, 0);
    }
}

/// Sorts items by key, stably (see [`keyed_sort`]).
pub fn sort_by_key<T>(v: Vec<(u32, T)>) -> (r: Vec<(u32, T)>)
    ensures
        r@ == keyed_sort(v@),
{
    let ghost v0 = v@;
    let total = v.len();
    let mut rest = v;
    let mut out: Vec<(u32, T)> = Vec::new();
    let mut i: usize = 0;
    assert(v0.take(0) =~= Seq::<(u32, T)>::empty());
    while rest.len() > 0
        invariant
            i <= v0.len(),
            v0.len() == total,
            rest@ == v0.skip(i as int),
            out@ == keyed_sort(v0.take(i as int)),
        decreases rest.len(),
    {
        let x = rest.remove(0);
        assert(x == v0[i as int]);
        assert(v0.take(i + 1).drop_last() =~= v0.take(i as int));
        assert(rest@ =~= v0.skip(i + 1));
        let key = x.0;
        let mut j: usize = 0;
        proof {
            lemma_keyed_sort_len(v0.take(i as int));
        }
        while j < out.len() && out[j].0 <= key
            invariant
                j <= out.len(),
                key_upper(out@, key, 0) == key_upper(out@, key, j as int),
            decreases out.len() - j,
        {
            j = j + 1;
        }
        out.insert(j, x);
        i = i + 1;
    }
    assert(v0.take(i as int) =~= v0);
    out
}

// ---------------------------------------------------------------------------
// Discriminator candidates and diagnostics
// ---------------------------------------------------------------------------

/// `n` is a class RTTI derives from one of the roots `keys`, other than the
/// root itself.
pub open spec fn is_variant_of_roots(keys: Seq<Seq<char>>, h: Seq<(Seq<char>, Seq<Seq<char>>)>, n: Seq<char>) -> bool {
    exists|i: int| 0 <= i < keys.len() && n != keys[i] && (derived_in(h, #[trigger] keys[i]) matches Some(l) && l.contains(n))
}

/// The classes derived from the polymorphic roots (the candidates for
/// discriminator values).
pub fn collect_polymorphic_variant_names(roots: &NameMap<RootSources>, hierarchy: &ClassHierarchy) -> (r: NameSet)
    requires
        roots.wf(),
    ensures
        r.wf(),
        forall|n: Seq<char>| #[trigger] r@.contains(n) <==> is_variant_of_roots(roots.keys(), hierarchy.entries(), n),
{
    let ghost keys = roots.keys();
    let ghost h = hierarchy.entries();
    let mut out = NameSet::new();
    let n = roots.len();
    let mut i: usize = 0;
    while i < n
        invariant
            i <= n,
            n == keys.len(),
            keys == roots.keys(),
            roots.wf(),
            h == hierarchy.entries(),
            out.wf(),
            forall|x: Seq<char>| #[trigger] out@.contains(x) <==> is_variant_of_roots(keys.take(i as int), h, x),
        decreases n - i,
    {
        let base = roots.key_at(i);
        let ghost before = out@;
        match hierarchy.derived_of(base.as_str()) {
            Some(list) => {
                let mut j: usize = 0;
                while j < list.len()
                    invariant
                        j <= list.len(),
                        out.wf(),
                        derived_in(h, base@) == Some(list.deep_view()),
                        forall|x: Seq<char>| #[trigger] out@.contains(x) <==> (before.contains(x) || (x != base@
                            && list.deep_view().take(j as int).contains(x))),
                    decreases list.len() - j,
                {
                    let ghost o1 = out@;
                    let ghost item = list[j as int]@;
                    if !str_eq(list[j].as_str(), base.as_str()) {
                        out.insert(list[j].clone());
                    }
                    assert(list.deep_view()[j as int] == item);
                    assert forall|x: Seq<char>| #[trigger] out@.contains(x) <==> (o1.contains(x) || (x == item && x != base@)) by {
                        assert(out@.to_set().contains(x) == out@.contains(x));
                        assert(o1.to_set().contains(x) == o1.contains(x));
                    }
                    assert forall|x: Seq<char>| #[trigger] out@.contains(x) <==> (before.contains(x) || (x != base@
                        && list.deep_view().take(j + 1).contains(x))) by {
                        let t1 = list.deep_view().take(j + 1);
                        let t0 = list.deep_view().take(j as int);
                        assert(t1 =~= t0.push(item));
                        if t1.contains(x) && x != item {
                            let q = choose|q: int| 0 <= q < t1.len() && t1[q] == x;
                            assert(t0[q] == x);
                        }
                        if t0.contains(x) {
                            let q = choose|q: int| 0 <= q < t0.len() && t0[q] == x;
                            assert(t1[q] == x);
                        }
                        if x == item {
                            assert(t1[j as int] == x);
                        }
                    }
                    j = j + 1;
                }
                assert(list.deep_view().take(list.len() as int) =~= list.deep_view());
            },
            None => {},
        }
        assert forall|x: Seq<char>| #[trigger] out@.contains(x) <==> is_variant_of_roots(keys.take(i + 1), h, x) by {
            let kt = keys.take(i + 1);
            assert(kt[i as int] == base@);
            if is_variant_of_roots(kt, h, x) {
                let q = choose|q: int| 0 <= q < kt.len() && x != kt[q] && (derived_in(h, #[trigger] kt[q]) matches Some(l) && l.contains(x));
                if q < i {
                    assert(keys.take(i as int)[q] == kt[q]);
                }
            }
            if is_variant_of_roots(keys.take(i as int), h, x) {
                let q = choose|q: int| 0 <= q < i && x != keys.take(i as int)[q] && (derived_in(h, #[trigger] keys.take(i as int)[q]) matches Some(l) && l.contains(x));
                assert(kt[q] == keys.take(i as int)[q]);
            }
        }
        i = i + 1;
    }
    assert(keys.take(n as int) =~= keys);
    out
}

/// The name a resolver diagnostic kind is reported by.
pub open spec fn kind_name(k: crate::model_resolver::ModelResolverDiagnosticKind) -> Seq<char> {
    match k {
        crate::model_resolver::ModelResolverDiagnosticKind::RejectedField => "rejected_field"@,
        crate::model_resolver::ModelResolverDiagnosticKind::RejectedInitializerCandidate => "rejected_initializer_candidate"@,
        crate::model_resolver::ModelResolverDiagnosticKind::ConflictingInitializerCandidates => "conflicting_initializer_candidates"@,
        crate::model_resolver::ModelResolverDiagnosticKind::ExtractorError => "extractor_error"@,
        crate::model_resolver::ModelResolverDiagnosticKind::NoInitializer => "no_initializer"@,
    }
}

/// The name of a resolver diagnostic kind (see [`kind_name`]).
pub fn model_resolver_diagnostic_kind_name(kind: &crate::model_resolver::ModelResolverDiagnosticKind) -> (r: &'static str)
    ensures
        r@ == kind_name(*kind),
{
    match kind {
        crate::model_resolver::ModelResolverDiagnosticKind::RejectedField => "rejected_field",
        crate::model_resolver::ModelResolverDiagnosticKind::RejectedInitializerCandidate => "rejected_initializer_candidate",
        crate::model_resolver::ModelResolverDiagnosticKind::ConflictingInitializerCandidates => "conflicting_initializer_candidates",
        crate::model_resolver::ModelResolverDiagnosticKind::ExtractorError => "extractor_error",
        crate::model_resolver::ModelResolverDiagnosticKind::NoInitializer => "no_initializer",
    }
}

/// A reported note on an initializer candidate.
#[derive(Debug, Clone, PartialEq, Eq)]
pub struct InitializerCandidateDiagnostic {
    pub model_name: String,
    pub kind: String,
    pub function_rva: Option<String>,
    pub reason: String,
}

/// The report of a resolver diagnostic: the model, the kind's name, the
/// function as `0x`-prefixed hexadecimal, and the message.
pub open spec fn candidate_report(d: crate::model_resolver::ModelResolverDiagnostic) -> (Seq<char>, Seq<char>, Option<Seq<char>>, Seq<char>) {
    (
        d.model_name@,
        kind_name(d.kind),
        match d.function_rva {
            Some(rva) => Some("0x"@ + crate::text::hex_text(rva as nat)),
            None => None,
        },
        d.message@,
    )
}

impl InitializerCandidateDiagnostic {
    /// The report as a tuple of texts.
    pub open spec fn report(&self) -> (Seq<char>, Seq<char>, Option<Seq<char>>, Seq<char>) {
        (self.model_name@, self.kind@, crate::rtti::text_of(self.function_rva), self.reason@)
    }
}

/// The report of a resolver diagnostic (see [`candidate_report`]).
pub fn initializer_candidate_from(diagnostic: &crate::model_resolver::ModelResolverDiagnostic) -> (r: InitializerCandidateDiagnostic)
    ensures
        r.report() == candidate_report(*diagnostic),
{
    InitializerCandidateDiagnostic {
        model_name: diagnostic.model_name.clone(),
        kind: owned_static(model_resolver_diagnostic_kind_name(&diagnostic.kind)),
        function_rva: match diagnostic.function_rva {
            Some(rva) => Some(crate::text::hex_string(rva as u64)),
            None => None,
        },
        reason: diagnostic.message.clone(),
    }
}

fn owned_static(s: &'static str) -> (r: String)
    ensures
        r@ == s@,
{
    crate::text::owned(s)
}

/// What a dump reports besides the dump: the initializer candidates the
/// resolver rejected or found in conflict, and the discriminator scan.
#[derive(Debug, Clone)]
pub struct DumpDiagnostics {
    pub initializer_candidates: Vec<InitializerCandidateDiagnostic>,
    pub discriminator: crate::discriminator::DiscriminatorScanDiagnostics,
}

/// A dump with its diagnostics.
#[derive(Debug, Clone)]
pub struct DumpWithDiagnostics {
    pub dump: DumpResult,
    pub diagnostics: DumpDiagnostics,
}


// ---------------------------------------------------------------------------
// The dump
// ---------------------------------------------------------------------------

/// The second components of keyed items.
pub open spec fn seconds<T>(s: Seq<(u32, T)>) -> Seq<T> {
    s.map_values(|p: (u32, T)| p.1)
}

/// The items of keyed pairs, in order.
pub fn take_seconds<T>(v: Vec<(u32, T)>) -> (r: Vec<T>)
    ensures
        r@ == seconds(v@),
{
    let ghost v0 = v@;
    let total = v.len();
    let mut rest = v;
    let mut out: Vec<T> = Vec::new();
    let mut i: usize = 0;
    while rest.len() > 0
        invariant
            i <= v0.len(),
            v0.len() == total,
            rest@ == v0.skip(i as int),
            out@ == seconds(v0.take(i as int)),
        decreases rest.len(),
    {
        let x = rest.remove(0);
        assert(x == v0[i as int]);
        assert(rest@ =~= v0.skip(i + 1));
        out.push(x.1);
        i = i + 1;
        assert(out@ =~= seconds(v0.take(i as int)));
    }
    assert(v0.take(i as int) =~= v0);
    out
}

/// The version a dump reports: the options' when both its parts are given,
/// else the one the binary holds, else `unknown` and 0.
pub open spec fn chosen_version(version: Seq<char>, build: u32, raw: Seq<u8>) -> (Seq<char>, u32) {
    if version.len() > 0 && build > 0 {
        (version, build)
    } else {
        match detected_version(raw) {
            Some(v) => v,
            None => ("unknown"@, 0),
        }
    }
}

/// A packet entry built from its descriptor: its request and response are
/// the entries the resolver gave, in `log`, for the request and then the
/// response name.
pub open spec fn packet_from(
    d: crate::scanner::PacketDescriptor,
    p: PacketEntry,
    log: Seq<(Seq<char>, EntryShape)>,
) -> bool {
    &&& p.opcode == d.opcode
    &&& log.len() == 2
    &&& log[0] == (d.request_full_name@, p.request@)
    &&& log[1] == (d.response_full_name@, p.response@)
    &&& crate::model_resolver::resolution_ok(d.request_full_name@, p.request@)
    &&& crate::model_resolver::resolution_ok(d.response_full_name@, p.response@)
}

/// How many entries the resolver gives for the first `n` events: one for a
/// special packet's request, two for another event's request and response.
pub open spec fn event_lookups(events: Seq<crate::scanner::PacketDescriptor>, n: int) -> int
    decreases n,
{
    if n <= 0 {
        0
    } else {
        event_lookups(events, n - 1) + if events[n - 1].is_special {
            1int
        } else {
            2int
        }
    }
}

proof fn lemma_event_lookups_grow(events: Seq<crate::scanner::PacketDescriptor>, a: int, b: int)
    requires
        0 <= a <= b,
    ensures
        event_lookups(events, a) <= event_lookups(events, b),
        event_lookups(events, a) >= 0,
    decreases b,
{
    if a < b {
        lemma_event_lookups_grow(events, a, b - 1);
    } else if a > 0 {
        lemma_event_lookups_grow(events, a - 1, a - 1);
    }
}

/// An event entry built from its descriptor, from the entries the resolver
/// gave for it in `log`. A special packet carries its kind, name and base
/// kind, the entry given for its request with its built-in fields in place
/// of an empty resolution, and the request's offset. Another event carries
/// the entries given for its request and then its response.
pub open spec fn event_from(
    d: crate::scanner::PacketDescriptor,
    e: EventEntry,
    log: Seq<(Seq<char>, EntryShape)>,
) -> bool {
    &&& e.opcode == d.opcode
    &&& e.warn is None
    &&& if d.is_special {
        let base = log[0].1;
        &&& log.len() == 1
        &&& log[0].0 == d.request_full_name@
        &&& crate::rtti::text_of(e.kind) == Some("special_packet"@)
        &&& crate::rtti::text_of(e.name) == crate::rtti::text_of(d.special_name)
        &&& crate::rtti::text_of(e.base_kind) == crate::rtti::text_of(d.base_kind)
        &&& e.response is None
        &&& crate::model_resolver::resolution_ok(d.request_full_name@, base)
        &&& e.request matches Some(q) && crate::rtti::text_of(e.offset) == q@.offset && q@ == (if base.fields.len()
            == 0 && d.special_request_fields.len() > 0 {
            EntryShape { fields: fields_view(d.special_request_fields@), warn: None, ..base }
        } else {
            base
        })
    } else {
        &&& log.len() == 2
        &&& e.kind is None && e.name is None && e.base_kind is None && e.offset is None
        &&& e.request matches Some(q) && crate::model_resolver::resolution_ok(d.request_full_name@, q@) && log[0] == (
            d.request_full_name@,
            q@,
        )
        &&& e.response matches Some(q) && crate::model_resolver::resolution_ok(d.response_full_name@, q@) && log[1]
            == (d.response_full_name@, q@)
    }
}

/// A name looked up twice was given the same entry both times.
pub open spec fn consistent_lookups(log: Seq<(Seq<char>, EntryShape)>) -> bool {
    forall|i: int, j: int|
        0 <= i < log.len() && 0 <= j < log.len() && (#[trigger] log[i]).0 == (#[trigger] log[j]).0 ==> log[i].1
            == log[j].1
}

/// The reports of the resolver diagnostics of rejected or conflicting
/// initializer candidates, in order.
pub open spec fn candidate_reports(ds: Seq<crate::model_resolver::ModelResolverDiagnostic>) -> Seq<
    (Seq<char>, Seq<char>, Option<Seq<char>>, Seq<char>),
>
    decreases ds.len(),
{
    if ds.len() == 0 {
        Seq::empty()
    } else {
        let rest = candidate_reports(ds.drop_last());
        match ds.last().kind {
            crate::model_resolver::ModelResolverDiagnosticKind::RejectedInitializerCandidate => rest.push(
                candidate_report(ds.last()),
            ),
            crate::model_resolver::ModelResolverDiagnosticKind::ConflictingInitializerCandidates => rest.push(
                candidate_report(ds.last()),
            ),
            _ => rest,
        }
    }
}

/// The reports of initializer-candidate diagnostics.
pub open spec fn reports_of(s: Seq<InitializerCandidateDiagnostic>) -> Seq<(Seq<char>, Seq<char>, Option<Seq<char>>, Seq<char>)> {
    s.map_values(|d: InitializerCandidateDiagnostic| d.report())
}

/// The intermediate results of a dump: the packets and events before
/// ordering with the resolver's answers for them, the resolver's answers to
/// each later stage, the roots, the
/// discriminator candidates and values, the names of the groups, and the
/// resolver's diagnostics.
pub struct DumpTrace {
    pub packet_pairs: Seq<(u32, PacketEntry)>,
    pub packets_log: Seq<(Seq<char>, EntryShape)>,
    pub event_pairs: Seq<(u32, EventEntry)>,
    pub events_log: Seq<(Seq<char>, EntryShape)>,
    pub roots_log: Seq<(Seq<char>, EntryShape)>,
    pub roots: NameMap<RootSources>,
    pub candidates: NameSet,
    pub values: NameMap<String>,
    pub groups_log: Seq<(Seq<char>, EntryShape)>,
    pub group_names: NameSet,
    pub catalog_log: Seq<(Seq<char>, EntryShape)>,
    pub diagnostics: Seq<crate::model_resolver::ModelResolverDiagnostic>,
}

/// `src` is the model-resolution source of the image `pe` with RTTI `rtti`
/// (see [`crate::model_resolver::PeModelResolutionSource::new`]): its
/// image, its RTTI, and an index of the functions that load each vtable.
pub open spec fn image_source<'a>(
    src: crate::model_resolver::PeModelResolutionSource<'a>,
    pe: &crate::pe::PeImage,
    rtti: &crate::rtti::RttiEngine,
) -> bool {
    &&& *src.image() == *pe
    &&& *src.engine() == *rtti
    &&& match crate::extractor::text_code(pe) {
        Some(ins) => crate::extractor::xrefs_hold(pe, rtti, &src.index().vtable_to_funcs, ins, ins.len() as int),
        None => forall|v: u32| #[trigger] src.index().vtable_to_funcs.spec_get(v) is None,
    }
}

/// Every entry of `log` is a resolution that the source of the image gives
/// for its name (see [`crate::model_resolver::resolvable`]).
pub open spec fn resolved_from_image(
    pe: &crate::pe::PeImage,
    rtti: &crate::rtti::RttiEngine,
    log: Seq<(Seq<char>, EntryShape)>,
) -> bool {
    exists|src: crate::model_resolver::PeModelResolutionSource|
        image_source(src, pe, rtti) && forall|k: int| 0 <= k < log.len() ==> crate::model_resolver::resolvable(
            src,
            (#[trigger] log[k]).0,
            log[k].1,
        )
}

/// The dump `r` is what the stages make of the image with trace `t`:
/// packets and events whose entries are the resolver's answers for their
/// type names, ordered by opcode (stably), the roots they lead to, the
/// discriminator values of the roots' variants, the polymorphic groups, the
/// catalogue, and the diagnostics. Across all stages the resolver gives a
/// name the same entry each time it is asked.
pub open spec fn dump_outcome(
    pe: &crate::pe::PeImage,
    rtti: &crate::rtti::RttiEngine,
    scanner: &crate::scanner::ProtocolScanner,
    r: DumpWithDiagnostics,
    t: DumpTrace,
) -> bool {
    let h = rtti.hierarchy.entries();
    let d = r.dump;
    &&& t.packet_pairs.len() == scanner.packets@.len()
    &&& t.packets_log.len() == 2 * t.packet_pairs.len()
    &&& forall|i: int| 0 <= i < t.packet_pairs.len() ==> (#[trigger] t.packet_pairs[i]).0 == scanner.packets@[i].opcode
        && packet_from(scanner.packets@[i], t.packet_pairs[i].1, t.packets_log.subrange(2 * i, 2 * i + 2))
    &&& d.packets@ == seconds(keyed_sort(t.packet_pairs))
    &&& t.event_pairs.len() == scanner.events@.len()
    &&& t.events_log.len() == event_lookups(scanner.events@, t.event_pairs.len() as int)
    &&& forall|i: int| 0 <= i < t.event_pairs.len() ==> (#[trigger] t.event_pairs[i]).0 == scanner.events@[i].opcode
        && event_from(
        scanner.events@[i],
        t.event_pairs[i].1,
        t.events_log.subrange(event_lookups(scanner.events@, i), event_lookups(scanner.events@, i + 1)),
    )
    &&& d.events@ == seconds(keyed_sort(t.event_pairs))
    &&& consistent_lookups(t.packets_log + t.events_log + t.roots_log + t.groups_log + t.catalog_log)
    &&& resolved_from_image(pe, rtti, t.packets_log + t.events_log + t.roots_log + t.groups_log + t.catalog_log)
    &&& roots_outcome(d.packets@, d.events@, h, t.roots_log, t.roots)
    &&& t.candidates.wf()
    &&& forall|n: Seq<char>| #[trigger] t.candidates@.contains(n) <==> is_variant_of_roots(t.roots.keys(), h, n)
    &&& crate::discriminator::discriminator_outcome(pe, rtti, t.candidates@, t.values, r.diagnostics.discriminator)
    &&& polys_outcome(t.roots, h, t.values, t.groups_log, d.polymorphic_models@, t.group_names)
    &&& catalog_outcome(d.packets@, d.events@, d.polymorphic_models@, t.catalog_log, d.models@)
    &&& reports_of(r.diagnostics.initializer_candidates@) == candidate_reports(t.diagnostics)
}

/// Builds the protocol dump of an image.
pub struct Dumper;

impl Dumper {
    /// The dump of an image (see [`Dumper::dump_with_diagnostics`]).
    pub fn dump(
        pe: &crate::pe::PeImage,
        rtti: &crate::rtti::RttiEngine,
        scanner: &crate::scanner::ProtocolScanner,
        options: &DumperOptions,
    ) -> (r: DumpResult)
        requires
            rtti.wf(),
        ensures
            ({
                let (v, b) = chosen_version(options.version.version@, options.version.build, pe.raw@);
                r.options.version@ == v && r.options.build == b
            }),
            r.string_enums.deep_view() == scanner.string_enums.deep_view(),
            pairs_view(r.error@) == error_payload_spec(),
            exists|t: DumpTrace, diags: DumpDiagnostics| #[trigger] dump_outcome(pe, rtti, scanner, DumpWithDiagnostics { dump: r, diagnostics: diags }, t),
    {
        let full = Self::dump_with_diagnostics(pe, rtti, scanner, options);
        let ghost diags = full.diagnostics;
        full.dump
    }

    /// The dump of an image with its diagnostics: the version; the packets
    /// and events of the scanner with their types resolved, ordered by
    /// opcode; the polymorphic roots they lead to and the discriminator
    /// values of the roots' variants; the polymorphic groups; the catalogue
    /// of standalone models; the string enumerations; and the resolver's
    /// rejected or conflicting initializer candidates with the
    /// discriminator scan's report.
    #[verifier::rlimit(60)]
    pub fn dump_with_diagnostics(
        pe: &crate::pe::PeImage,
        rtti: &crate::rtti::RttiEngine,
        scanner: &crate::scanner::ProtocolScanner,
        options: &DumperOptions,
    ) -> (r: DumpWithDiagnostics)
        requires
            rtti.wf(),
        ensures
            ({
                let (v, b) = chosen_version(options.version.version@, options.version.build, pe.raw@);
                r.dump.options.version@ == v && r.dump.options.build == b
            }),
            r.dump.string_enums.deep_view() == scanner.string_enums.deep_view(),
            pairs_view(r.dump.error@) == error_payload_spec(),
            exists|t: DumpTrace| #[trigger] dump_outcome(pe, rtti, scanner, r, t),
    {
        let chars = chars_of(options.version.version.as_str());
        let (version, build) = if chars.len() > 0 && options.version.build > 0 {
            (options.version.version.clone(), options.version.build)
        } else {
            match detect_version_from_bytes(pe.raw) {
                Some(av) => (av.version, av.build),
                None => (crate::text::owned("unknown"), 0u32),
            }
        };
        let source = crate::model_resolver::PeModelResolutionSource::new(pe, rtti);
        let ghost src0 = source;
        let mut resolver = crate::model_resolver::ModelResolver::new(source);
        let ghost r0 = resolver;

        // Packets.
        let mut ppairs: Vec<(u32, PacketEntry)> = Vec::new();
        let mut i: usize = 0;
        while i < scanner.packets.len()
            invariant
                i <= scanner.packets.len(),
                resolver.ready(),
                answers_kept(&r0, &resolver),
                ppairs.len() == i,
                resolver.lookups().len() == 2 * i,
                forall|k: int| 0 <= k < i ==> (#[trigger] ppairs@[k]).0 == scanner.packets@[k].opcode && packet_from(
                    scanner.packets@[k],
                    ppairs@[k].1,
                    resolver.lookups().subrange(2 * k, 2 * k + 2),
                ),
            decreases scanner.packets.len() - i,
        {
            let p = &scanner.packets[i];
            let ghost before = resolver.lookups();
            let request = resolver.find_type_entry(p.request_full_name.as_str());
            let response = resolver.find_type_entry(p.response_full_name.as_str());
            ppairs.push((p.opcode, PacketEntry { opcode: p.opcode, request, response }));
            proof {
                let now = resolver.lookups();
                assert forall|k: int| 0 <= k <= i implies (#[trigger] ppairs@[k]).0 == scanner.packets@[k].opcode
                    && packet_from(scanner.packets@[k], ppairs@[k].1, now.subrange(2 * k, 2 * k + 2)) by {
                    if k < i {
                        assert(now.subrange(2 * k, 2 * k + 2) =~= before.subrange(2 * k, 2 * k + 2));
                    } else {
                        assert(now.subrange(2 * k, 2 * k + 2) =~= seq![now[2 * k], now[2 * k + 1]]);
                    }
                }
            }
            i = i + 1;
        }
        let ghost packet_pairs = ppairs@;
        let ghost packets_log = resolver.lookups();
        let packets = take_seconds(sort_by_key(ppairs));

        // Events.
        let mut epairs: Vec<(u32, EventEntry)> = Vec::new();
        let mut j: usize = 0;
        while j < scanner.events.len()
            invariant
                j <= scanner.events.len(),
                resolver.ready(),
                answers_kept(&r0, &resolver),
                epairs.len() == j,
                packets_log.len() <= resolver.lookups().len(),
                resolver.lookups().take(packets_log.len() as int) == packets_log,
                resolver.lookups().len() - packets_log.len() == event_lookups(scanner.events@, j as int),
                forall|k: int| 0 <= k < j ==> (#[trigger] epairs@[k]).0 == scanner.events@[k].opcode && event_from(
                    scanner.events@[k],
                    epairs@[k].1,
                    resolver.lookups().skip(packets_log.len() as int).subrange(
                        event_lookups(scanner.events@, k),
                        event_lookups(scanner.events@, k + 1),
                    ),
                ),
            decreases scanner.events.len() - j,
        {
            let e = &scanner.events[j];
            let ghost before = resolver.lookups();
            if e.is_special {
                let base = resolver.find_type_entry(e.request_full_name.as_str());
                let ghost base_view = base@;
                let request = apply_special_request_fields(base, &e.special_request_fields);
                let offset = copy_opt_string(&request.offset);
                epairs.push((e.opcode, EventEntry {
                    opcode: e.opcode,
                    kind: Some(crate::text::owned("special_packet")),
                    name: copy_opt_string(&e.special_name),
                    base_kind: copy_opt_string(&e.base_kind),
                    offset,
                    request: Some(request),
                    response: None,
                    warn: None,
                }));
                proof {
                    let q = epairs@[j as int].1.request->0;
                    assert(crate::model_resolver::resolution_ok(e.request_full_name@, base_view));
                    assert(q@ == (if base_view.fields.len() == 0 && e.special_request_fields@.len() > 0 {
                        EntryShape { fields: fields_view(e.special_request_fields@), warn: None, ..base_view }
                    } else {
                        base_view
                    }));
                }
            } else {
                let request = resolver.find_type_entry(e.request_full_name.as_str());
                let response = resolver.find_type_entry(e.response_full_name.as_str());
                epairs.push((e.opcode, EventEntry {
                    opcode: e.opcode,
                    kind: None,
                    name: None,
                    base_kind: None,
                    offset: None,
                    request: Some(request),
                    response: Some(response),
                    warn: None,
                }));
            }
            proof {
                let ev = scanner.events@;
                let now = resolver.lookups();
                let pl = packets_log.len() as int;
                lemma_event_lookups_grow(ev, j as int, j as int);
                assert(now.take(pl) =~= packets_log) by {
                    assert(before.take(pl) == packets_log);
                }
                assert forall|k: int| 0 <= k <= j implies (#[trigger] epairs@[k]).0 == ev[k].opcode && event_from(
                    ev[k],
                    epairs@[k].1,
                    now.skip(pl).subrange(event_lookups(ev, k), event_lookups(ev, k + 1)),
                ) by {
                    lemma_event_lookups_grow(ev, k, k + 1);
                    if k < j {
                        lemma_event_lookups_grow(ev, k + 1, j as int);
                        assert(now.skip(pl).subrange(event_lookups(ev, k), event_lookups(ev, k + 1)) =~= before.skip(
                            pl,
                        ).subrange(event_lookups(ev, k), event_lookups(ev, k + 1)));
                    } else {
                        let lo = event_lookups(ev, k);
                        if ev[k].is_special {
                            assert(now.skip(pl).subrange(lo, lo + 1) =~= seq![now[pl + lo]]);
                        } else {
                            assert(now.skip(pl).subrange(lo, lo + 2) =~= seq![now[pl + lo], now[pl + lo + 1]]);
                        }
                    }
                }
            }
            j = j + 1;
        }
        let ghost event_pairs = epairs@;
        let ghost events_log = resolver.lookups().skip(packets_log.len() as int);
        let events = take_seconds(sort_by_key(epairs));

        // Polymorphic roots, discriminators, groups and the catalogue.
        let ghost l0 = resolver.lookups();
        let roots = discover_polymorphic_roots(&packets, &events, &rtti.hierarchy, &mut resolver);
        let ghost l1 = resolver.lookups();
        let candidates = collect_polymorphic_variant_names(&roots, &rtti.hierarchy);
        let (values, discriminator) = crate::discriminator::scan_discriminator_values_with_diagnostics(
            pe,
            rtti,
            &candidates,
        );
        let (polymorphic_models, group_names) = build_polymorphic_models(
            &roots,
            &rtti.hierarchy,
            &mut resolver,
            &values,
        );
        let ghost l2 = resolver.lookups();
        let models = build_model_catalog(&packets, &events, &polymorphic_models, &mut resolver);
        let ghost l3 = resolver.lookups();

        // Diagnostics.
        let all = resolver.diagnostics();
        let mut reports: Vec<InitializerCandidateDiagnostic> = Vec::new();
        let mut k: usize = 0;
        while k < all.len()
            invariant
                k <= all.len(),
                reports_of(reports@) == candidate_reports(all@.take(k as int)),
            decreases all.len() - k,
        {
            let d = &all[k];
            assert(all@.take(k + 1).drop_last() =~= all@.take(k as int));
            let ghost before = reports@;
            match d.kind {
                crate::model_resolver::ModelResolverDiagnosticKind::RejectedInitializerCandidate => {
                    reports.push(initializer_candidate_from(d));
                },
                crate::model_resolver::ModelResolverDiagnosticKind::ConflictingInitializerCandidates => {
                    reports.push(initializer_candidate_from(d));
                },
                _ => {},
            }
            assert(reports_of(reports@) =~= candidate_reports(all@.take(k + 1)));
            k = k + 1;
        }
        assert(all@.take(all.len() as int) =~= all@);
        let ghost diags = all@;
        let r = DumpWithDiagnostics {
            dump: DumpResult {
                options: AppVersion { version, build },
                packets,
                events,
                models,
                polymorphic_models,
                string_enums: crate::text::strings_clone(&scanner.string_enums),
                error: default_error_payload(),
            },
            diagnostics: DumpDiagnostics { initializer_candidates: reports, discriminator },
        };
        proof {
            let t = DumpTrace {
                packet_pairs,
                packets_log,
                event_pairs,
                events_log,
                roots_log: l1.skip(l0.len() as int),
                roots,
                candidates,
                values,
                groups_log: l2.skip(l1.len() as int),
                group_names,
                catalog_log: l3.skip(l2.len() as int),
                diagnostics: diags,
            };
            assert(l0 =~= packets_log + events_log) by {
                assert(l0.take(packets_log.len() as int) == packets_log);
            }
            assert(l3 =~= packets_log + events_log + t.roots_log + t.groups_log + t.catalog_log);
            resolver.lemma_lookups_agree();
            resolver.lemma_lookups_answered();
            assert(answers_kept(&r0, &resolver));
            assert(image_source(src0, pe, rtti));
            assert forall|k: int| 0 <= k < l3.len() implies crate::model_resolver::resolvable(
                src0,
                (#[trigger] l3[k]).0,
                l3[k].1,
            ) by {
                assert(resolver.answers(l3[k].0, l3[k].1));
                assert(r0.answers(l3[k].0, l3[k].1));
            }
            assert(resolved_from_image(pe, rtti, l3));
            assert(dump_outcome(pe, rtti, scanner, r, t));
        }
        r
    }
}

} // verus!
