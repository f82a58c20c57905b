//! Properties that hold of the library as a whole: of every polymorphic
//! group, of the model catalogue, of field flattening and of the orderings
//! the dump uses; of primitive type names, enumeration values and roots;
//! and of the instruction steps the initializer and factory scans take.
use vstd::prelude::*;
use crate::extractor::{FieldShape, field_names, valid_field_name, sound_fields, extracted_fields, candidate_field};
use crate::dumper::{
    flatten_fields, polys_outcome, poly_group, subclass_set, subclasses_listed, source_names, tag_of,
    PolymorphicModelEntry, RootSources, VariantShape, EntryShape, PacketEntry, EventEntry, ModelEntry,
    catalog_outcome, catalog_entry, first_variants, variant_pairs, poly_variant_pairs, pair_names,
    all_variant_names, rtti_only, top_level_entries, entry_names, model_names, looked_up_names,
    skipped_by_walk,
};
use crate::model_resolver::is_empty_model_spec;
use crate::discriminator::{
    EvidenceShape, evidence_values, single_value, scream_case, direct_evidence, fact_evidence, facts_evidence,
    FactoryDiscriminatorFacts,
};
use crate::dumper::{keyed_sort, key_upper, seconds, dump_outcome, DumpWithDiagnostics, DumpTrace};
use crate::scanner::ProtocolScanner;
use crate::type_parser::decompose_spec;
use crate::dumper::{roots_outcome, heuristic_root};
use crate::rtti::{bases_in, derived_in, distinct_bases, RttiEngine};
use crate::pe::PeImage;
use crate::decode::InsnShape;
use crate::extractor::{
    CandidateShape, PendingShape, ExtractState, ExReg, candidate_names, commit, extract_step, extract_prefix,
    finished_fields, extracted_candidates, name_source_text,
};
use crate::text::{has_suffix, has_prefix};
use crate::type_parser::primitive_spec;
use crate::scanner::{enum_tokens, ascii_text, likely_enum, run_end, is_enum_byte};
use crate::discriminator::{
    scan_step, ScanState, RegShape, argument_registers, literal_in, constructed_in, present, literal_args,
    constructed_args, scream_values, only_value,
};
use crate::type_parser::{normalize_spec, strip_spec};
use crate::text::contains_seq;
use crate::names::{
    NameMap, NameSet, strictly_sorted, key_index, lemma_key_index_found, lemma_sorted_distinct,
    lemma_sorted_names_exist, sorted_names,
};

verus! {

/// Flattening a variant's fields over its base's keeps the base's fields
/// first and unchanged, so that the base wins a name both use; what follows
/// are local fields whose names the base does not use; every local field's
/// name is present; and the names stay distinct when the base's are.
pub proof fn lemma_flatten_fields(base: Seq<FieldShape>, local: Seq<FieldShape>)
    ensures
        flatten_fields(base, local).len() >= base.len(),
        flatten_fields(base, local).subrange(0, base.len() as int) == base,
        forall|k: int| base.len() <= k < flatten_fields(base, local).len() ==> local.contains(
            #[trigger] flatten_fields(base, local)[k],
        ) && !field_names(base).contains(flatten_fields(base, local)[k].name),
        forall|f: FieldShape| #[trigger] local.contains(f) ==> field_names(flatten_fields(base, local)).contains(f.name),
        field_names(base).no_duplicates() ==> field_names(flatten_fields(base, local)).no_duplicates(),
    decreases local.len(),
{
    let r = flatten_fields(base, local);
    if local.len() == 0 {
        assert(r.subrange(0, base.len() as int) =~= base);
    } else {
        let l0 = local[0];
        let rest = local.drop_first();
        assert forall|f: FieldShape| #[trigger] rest.contains(f) implies local.contains(f) by {
            let k = choose|k: int| 0 <= k < rest.len() && rest[k] == f;
            assert(local[k + 1] == f);
        }
        if field_names(base).contains(l0.name) {
            lemma_flatten_fields(base, rest);
            assert forall|f: FieldShape| #[trigger] local.contains(f) implies field_names(r).contains(f.name) by {
                let k = choose|k: int| 0 <= k < local.len() && local[k] == f;
                if k == 0 {
                    let j = choose|j: int| 0 <= j < field_names(base).len() && field_names(base)[j] == l0.name;
                    assert(r.subrange(0, base.len() as int)[j] == base[j]);
                    assert(field_names(r)[j] == l0.name);
                } else {
                    assert(rest[k - 1] == f);
                    assert(rest.contains(f));
                }
            }
        } else {
            let acc = base.push(l0);
            lemma_flatten_fields(acc, rest);
            assert(field_names(acc) =~= field_names(base).push(l0.name));
            assert(r.subrange(0, base.len() as int) =~= base) by {
                assert forall|k: int| 0 <= k < base.len() implies r.subrange(0, base.len() as int)[k] == base[k] by {
                    assert(r.subrange(0, acc.len() as int)[k] == acc[k]);
                }
            }
            assert forall|k: int| base.len() <= k < r.len() implies local.contains(#[trigger] r[k])
                && !field_names(base).contains(r[k].name) by {
                if k == base.len() {
                    assert(r.subrange(0, acc.len() as int)[k] == acc[k]);
                    assert(local[0] == r[k]);
                } else {
                    assert(rest.contains(r[k]));
                    assert(!field_names(acc).contains(r[k].name));
                    if field_names(base).contains(r[k].name) {
                        let j = choose|j: int| 0 <= j < field_names(base).len() && field_names(base)[j] == r[k].name;
                        assert(field_names(acc)[j] == r[k].name);
                    }
                }
            }
            assert forall|f: FieldShape| #[trigger] local.contains(f) implies field_names(r).contains(f.name) by {
                let k = choose|k: int| 0 <= k < local.len() && local[k] == f;
                if k == 0 {
                    let j = base.len() as int;
                    assert(r.subrange(0, acc.len() as int)[j] == acc[j]);
                    assert(field_names(r)[j] == l0.name);
                } else {
                    assert(rest[k - 1] == f);
                    assert(rest.contains(f));
                }
            }
            if field_names(base).no_duplicates() {
                assert(field_names(acc).no_duplicates()) by {
                    assert forall|i: int, j: int| 0 <= i < field_names(acc).len() && 0 <= j < field_names(acc).len()
                        && i != j implies field_names(acc)[i] != field_names(acc)[j] by {
                        if i == base.len() {
                            assert(field_names(base)[j] == field_names(acc)[j]);
                        } else if j == base.len() {
                            assert(field_names(base)[i] == field_names(acc)[i]);
                        }
                    }
                }
            }
        }
    }
}


/// The names of a list of variants.
pub open spec fn variant_names(vs: Seq<VariantShape>) -> Seq<Seq<char>> {
    vs.map_values(|v: VariantShape| v.name)
}

proof fn lemma_poly_lookup_prefix(keys: Seq<Seq<char>>, h: Seq<(Seq<char>, Seq<Seq<char>>)>, a: int)
    requires
        0 <= a <= keys.len(),
    ensures
        crate::dumper::poly_lookup_names(keys.take(a), h).len() <= crate::dumper::poly_lookup_names(keys, h).len(),
        crate::dumper::poly_lookup_names(keys, h).take(crate::dumper::poly_lookup_names(keys.take(a), h).len() as int)
            == crate::dumper::poly_lookup_names(keys.take(a), h),
    decreases keys.len(),
{
    if a == keys.len() {
        assert(keys.take(a) =~= keys);
        let p = crate::dumper::poly_lookup_names(keys, h);
        assert(p.take(p.len() as int) =~= p);
    } else {
        lemma_poly_lookup_prefix(keys.drop_last(), h, a);
        assert(keys.drop_last().take(a) =~= keys.take(a));
        let p = crate::dumper::poly_lookup_names(keys.drop_last(), h);
        let q = crate::dumper::poly_lookup_names(keys, h);
        let n = crate::dumper::poly_lookup_names(keys.take(a), h).len() as int;
        assert(q.take(n) =~= p.take(n));
    }
}

/// Every group built from the polymorphic roots is the group of its root,
/// with the root's sources. Its RTTI subclasses are, ascending and without
/// repetition, exactly the classes RTTI derives from the base, the base
/// itself excluded; they carry no tag, and the fields of each across the
/// base begin with the base's fields. A root not met in a protocol field has
/// no wire variants; a protocol root lists each RTTI subclass as a wire
/// variant with the tag known for it. The group has a discriminator exactly
/// when the base has a `_type` field, and it is `_type` of type
/// `std::string`. The base's offset and fields are those the resolver gave
/// for the base.
pub proof fn lemma_polymorphic_group(
    roots: NameMap<RootSources>,
    h: Seq<(Seq<char>, Seq<Seq<char>>)>,
    values: NameMap<String>,
    log: Seq<(Seq<char>, EntryShape)>,
    groups: Seq<PolymorphicModelEntry>,
    names: NameSet,
    i: int,
)
    requires
        polys_outcome(roots, h, values, log, groups, names),
        0 <= i < groups.len(),
    ensures
        ({
            let g = groups[i]@;
            let base = roots.keys()[i];
            let src = roots.vals()[i];
            &&& g.name == base
            &&& g.root_sources == source_names(src)
            &&& strictly_sorted(variant_names(g.rtti_subclasses))
            &&& variant_names(g.rtti_subclasses).to_set() == subclass_set(h, base)
            &&& !variant_names(g.rtti_subclasses).contains(base)
            &&& forall|j: int| 0 <= j < g.rtti_subclasses.len() ==> (#[trigger] g.rtti_subclasses[j]).tag is None
                && g.rtti_subclasses[j].all_fields.subrange(0, g.base_fields.len() as int) == g.base_fields
            &&& !src.protocol_field ==> g.variants.len() == 0
            &&& src.protocol_field ==> g.variants.len() == g.rtti_subclasses.len() && forall|j: int|
                0 <= j < g.variants.len() ==> #[trigger] g.variants[j] == (VariantShape {
                    tag: tag_of(values, g.rtti_subclasses[j].name),
                    ..g.rtti_subclasses[j]
                })
            &&& (g.discriminator is Some <==> field_names(g.base_fields).contains("_type"@))
            &&& g.discriminator is Some ==> g.discriminator == Some(("_type"@, "std::string"@))
            &&& exists|k: int| 0 <= k < log.len() && (#[trigger] log[k]).0 == base && g.base_offset == log[k].1.offset
                && g.base_fields == log[k].1.fields
        }),
{
    let keys = roots.keys();
    let base = keys[i];
    lemma_poly_lookup_prefix(keys, h, i + 1);
    let lo0 = crate::dumper::poly_lookup_names(keys.take(i), h).len() as int;
    assert(keys.take(i + 1).drop_last() =~= keys.take(i));
    assert(crate::dumper::poly_lookup_names(keys.take(i + 1), h)[lo0] == base);
    assert(looked_up_names(log)[lo0] == base);
    assert(crate::dumper::looked_up(log)[lo0] == log[lo0].1);
    assert(subclasses_listed(h, keys[i]));
    let lo = crate::dumper::poly_lookup_names(keys.take(i), h).len() as int;
    let hi = crate::dumper::poly_lookup_names(keys.take(i + 1), h).len() as int;
    let es = crate::dumper::looked_up(log).subrange(lo, hi);
    let g = groups[i]@;
    assert(g == poly_group(base, roots.vals()[i], h, values, es));
    let subnames = crate::dumper::subclass_names(h, base);
    assert(variant_names(g.rtti_subclasses) =~= subnames);
    assert(!subnames.contains(base)) by {
        if subnames.contains(base) {
            assert(subnames.to_set().contains(base));
        }
    }
    assert forall|j: int| 0 <= j < g.rtti_subclasses.len() implies (#[trigger] g.rtti_subclasses[j]).tag is None
        && g.rtti_subclasses[j].all_fields.subrange(0, g.base_fields.len() as int) == g.base_fields by {
        lemma_flatten_fields(es[0].fields, es[1 + j].fields);
    }
}


/// The variants the catalogue resolves are wire variants, none of them
/// top-level, a placeholder model or a `::Polymorphic` wrapper.
proof fn lemma_first_variants(pairs: Seq<(Seq<char>, bool)>, top: Seq<Seq<char>>, x: Seq<char>)
    requires
        pair_names(first_variants(pairs, top)).contains(x),
    ensures
        pair_names(pairs).contains(x),
        !top.contains(x),
        !is_empty_model_spec(x),
        !has_suffix(x, "::Polymorphic"@),
    decreases pairs.len(),
{
    let r = first_variants(pairs.drop_last(), top);
    let k = choose|k: int| 0 <= k < pair_names(first_variants(pairs, top)).len() && pair_names(first_variants(pairs, top))[k] == x;
    let n = pairs.last().0;
    if top.contains(n) || is_empty_model_spec(n) || has_suffix(n, "::Polymorphic"@) || pair_names(r).contains(n) {
        assert(pair_names(r)[k] == x);
        lemma_first_variants(pairs.drop_last(), top, x);
        let q = choose|q: int| 0 <= q < pair_names(pairs.drop_last()).len() && pair_names(pairs.drop_last())[q] == x;
        assert(pair_names(pairs)[q] == x);
    } else if k < r.len() {
        assert(pair_names(r)[k] == x);
        lemma_first_variants(pairs.drop_last(), top, x);
        let q = choose|q: int| 0 <= q < pair_names(pairs.drop_last()).len() && pair_names(pairs.drop_last())[q] == x;
        assert(pair_names(pairs)[q] == x);
    } else {
        assert(x == n);
        assert(pair_names(pairs)[pairs.len() - 1] == x);
    }
}

/// The names of the wire-variant pairs are the names of all wire variants.
proof fn lemma_variant_pair_names(polys: Seq<PolymorphicModelEntry>)
    ensures
        pair_names(variant_pairs(polys)) == all_variant_names(polys),
    decreases polys.len(),
{
    if polys.len() > 0 {
        lemma_variant_pair_names(polys.drop_last());
        assert(pair_names(variant_pairs(polys)) =~= pair_names(variant_pairs(polys.drop_last())) + pair_names(
            poly_variant_pairs(polys.last()),
        ));
        assert(pair_names(poly_variant_pairs(polys.last())) =~= polys.last().variants@.map_values(
            |v: crate::dumper::PolymorphicVariant| v.name@,
        ));
    }
}

proof fn lemma_first_variants_distinct(pairs: Seq<(Seq<char>, bool)>, top: Seq<Seq<char>>)
    ensures
        pair_names(first_variants(pairs, top)).no_duplicates(),
    decreases pairs.len(),
{
    if pairs.len() > 0 {
        let r = first_variants(pairs.drop_last(), top);
        lemma_first_variants_distinct(pairs.drop_last(), top);
        let f = first_variants(pairs, top);
        if f != r {
            let n = pairs.last().0;
            assert(pair_names(f) =~= pair_names(r).push(n));
            assert forall|a: int, b: int| 0 <= a < pair_names(f).len() && 0 <= b < pair_names(f).len() && a != b
                implies pair_names(f)[a] != pair_names(f)[b] by {
                if a < r.len() && b < r.len() {
                    assert(pair_names(f)[a] == pair_names(r)[a] && pair_names(f)[b] == pair_names(r)[b]);
                } else if a == r.len() {
                    assert(pair_names(f)[b] == pair_names(r)[b]);
                } else {
                    assert(pair_names(f)[a] == pair_names(r)[a]);
                }
            }
        }
    }
}

proof fn lemma_key_index_distinct(keys: Seq<Seq<char>>, i: int)
    requires
        keys.no_duplicates(),
        0 <= i < keys.len(),
    ensures
        key_index(keys, keys[i]) == i,
{
    lemma_key_index_found(keys, keys[i]);
}

/// Each wire variant the catalogue resolves (the first occurrence of its
/// name among the groups' variants) is listed once, with the offset and
/// the fields the resolver gave it, and with the resolver's warning unless
/// it has an initializer but no fields of its own while its group's base
/// has fields, in which case it carries none.
pub proof fn lemma_catalog_variant(
    packets: Seq<PacketEntry>,
    events: Seq<EventEntry>,
    polys: Seq<PolymorphicModelEntry>,
    log: Seq<(Seq<char>, EntryShape)>,
    r: Seq<ModelEntry>,
    i: int,
)
    requires
        catalog_outcome(packets, events, polys, log, r),
        0 <= i < first_variants(variant_pairs(polys), entry_names(top_level_entries(packets, events))).len(),
    ensures
        ({
            let v = first_variants(variant_pairs(polys), entry_names(top_level_entries(packets, events)))[i];
            &&& log[i].0 == v.0
            &&& exists|m: int| 0 <= m < r.len() && (#[trigger] r[m]).name@ == v.0 && r[m]@ == crate::dumper::variant_model(
                v.0,
                v.1,
                log[i].1,
            )
            &&& forall|m: int| 0 <= m < r.len() && (#[trigger] r[m]).name@ == v.0 ==> r[m]@ == crate::dumper::variant_model(
                v.0,
                v.1,
                log[i].1,
            )
        }),
{
    let top = entry_names(top_level_entries(packets, events));
    let firsts = first_variants(variant_pairs(polys), top);
    let log1 = log.take(firsts.len() as int);
    let log3 = log.skip(firsts.len() as int);
    let v = firsts[i];
    lemma_first_variants_distinct(variant_pairs(polys), top);
    assert(looked_up_names(log1)[i] == pair_names(firsts)[i]);
    assert(log1[i] == log[i]);
    lemma_key_index_distinct(pair_names(firsts), i);
    assert(catalog_entry(polys, firsts, log1, log3, v.0) == Some(crate::dumper::variant_model(v.0, v.1, log[i].1)));
    assert(model_names(r).contains(v.0));
    let m = choose|m: int| 0 <= m < model_names(r).len() && model_names(r)[m] == v.0;
    assert(r[m].name@ == v.0);
}

/// The catalogue of standalone models names each model once; it holds no
/// top-level request or response type, no placeholder model and no
/// `::Polymorphic` wrapper; and no RTTI subclass that no group sends on the
/// wire appears in it without fields.
pub proof fn lemma_model_catalog(
    packets: Seq<PacketEntry>,
    events: Seq<EventEntry>,
    polys: Seq<PolymorphicModelEntry>,
    log: Seq<(Seq<char>, EntryShape)>,
    r: Seq<ModelEntry>,
    m: int,
)
    requires
        catalog_outcome(packets, events, polys, log, r),
        0 <= m < r.len(),
    ensures
        forall|q: int| 0 <= q < r.len() && q != m ==> r[q].name@ != r[m].name@,
        !entry_names(top_level_entries(packets, events)).contains(r[m].name@),
        !is_empty_model_spec(r[m].name@),
        !has_suffix(r[m].name@, "::Polymorphic"@),
        !(r[m].fields.len() == 0 && rtti_only(polys, r[m].name@)),
{
    let seeds = top_level_entries(packets, events);
    let top = entry_names(seeds);
    let firsts = first_variants(variant_pairs(polys), top);
    let log1 = log.take(firsts.len() as int);
    let log3 = log.skip(firsts.len() as int);
    let k = r[m].name@;
    assert forall|q: int| 0 <= q < r.len() && q != m implies r[q].name@ != r[m].name@ by {
        lemma_sorted_distinct(model_names(r), q, m);
    }
    assert(catalog_entry(polys, firsts, log1, log3, k) == Some(r[m]@));
    let i = key_index(looked_up_names(log1), k);
    let j = key_index(looked_up_names(log3), k);
    lemma_key_index_found(looked_up_names(log1), k);
    lemma_key_index_found(looked_up_names(log3), k);
    if i >= 0 {
        lemma_first_variants(variant_pairs(polys), top, k);
        lemma_variant_pair_names(polys);
    } else {
        assert(looked_up_names(log3)[j] == k);
        assert(!skipped_by_walk(looked_up_names(log3)[j], top));
    }
}


/// The SCREAM_CASE values evidence shows for one variant are finitely many.
proof fn lemma_evidence_values_finite(ev: Seq<EvidenceShape>, variant: Seq<char>)
    ensures
        evidence_values(ev, variant).finite(),
{
    let all = ev.map_values(|e: EvidenceShape| e.value).to_set();
    assert(evidence_values(ev, variant).subset_of(all)) by {
        assert forall|v: Seq<char>| evidence_values(ev, variant).contains(v) implies all.contains(v) by {
            let i = choose|i: int| 0 <= i < ev.len() && (#[trigger] ev[i]).variant_name == variant && ev[i].value == v
                && crate::discriminator::scream_case(v);
            assert(ev.map_values(|e: EvidenceShape| e.value)[i] == v);
        }
    }
    vstd::seq_lib::seq_to_set_is_finite(ev.map_values(|e: EvidenceShape| e.value));
    vstd::set_lib::lemma_set_subset_finite(all, evidence_values(ev, variant));
}

/// A variant is given a discriminator value exactly when the evidence shows
/// one SCREAM_CASE value for it, and then that value: values that conflict,
/// or no value at all, give none.
pub proof fn lemma_single_value(ev: Seq<EvidenceShape>, variant: Seq<char>)
    ensures
        single_value(ev, variant) is Some <==> evidence_values(ev, variant).len() == 1,
        single_value(ev, variant) matches Some(v) ==> evidence_values(ev, variant) == set![v],
        forall|a: Seq<char>, b: Seq<char>| #[trigger] evidence_values(ev, variant).contains(a)
            && #[trigger] evidence_values(ev, variant).contains(b) && a != b ==> single_value(ev, variant) is None,
{
    let vs = evidence_values(ev, variant);
    lemma_evidence_values_finite(ev, variant);
    lemma_sorted_names_exist(vs);
    let s = sorted_names(vs);
    assert forall|i: int, j: int| 0 <= i < s.len() && 0 <= j < s.len() && i != j implies s[i] != s[j] by {
        lemma_sorted_distinct(s, i, j);
    }
    assert(s.no_duplicates());
    s.unique_seq_to_set();
    if s.len() == 1 {
        assert(vs =~= set![s[0]]) by {
            assert forall|x: Seq<char>| vs.contains(x) <==> x == s[0] by {
                if vs.contains(x) {
                    assert(s.to_set().contains(x));
                }
                assert(s.contains(s[0]));
            }
        }
    }
    assert forall|a: Seq<char>, b: Seq<char>| #[trigger] vs.contains(a) && #[trigger] vs.contains(b) && a != b
        implies single_value(ev, variant) is None by {
        if s.len() == 1 {
            assert(vs == set![s[0]]);
        }
    }
}


/// Whether an item has key `k`.
pub open spec fn key_is<T>(k: u32) -> spec_fn((u32, T)) -> bool {
    |e: (u32, T)| e.0 == k
}

/// The items of `s` whose key is `k`, in order.
pub open spec fn with_key<T>(s: Seq<(u32, T)>, k: u32) -> Seq<(u32, T)> {
    s.filter(key_is::<T>(k))
}

/// In a sequence sorted by key, the insertion point of `key` found from `i`
/// has only keys up to `key` before it (from `i`) and a larger key at it.
proof fn lemma_key_upper<T>(p: Seq<(u32, T)>, key: u32, i: int)
    requires
        0 <= i <= p.len(),
    ensures
        i <= key_upper(p, key, i) <= p.len(),
        forall|j: int| i <= j < key_upper(p, key, i) ==> (#[trigger] p[j]).0 <= key,
        key_upper(p, key, i) < p.len() ==> p[key_upper(p, key, i)].0 > key,
    decreases p.len() - i,
{
    if i < p.len() && p[i].0 <= key {
        lemma_key_upper(p, key, i + 1);
    }
}

/// A sequence whose items all have keys other than `k` has no item of key `k`.
proof fn lemma_no_key<T>(q: Seq<(u32, T)>, k: u32)
    requires
        forall|i: int| 0 <= i < q.len() ==> (#[trigger] q[i]).0 != k,
    ensures
        with_key(q, k) == Seq::<(u32, T)>::empty(),
    decreases q.len(),
{
    reveal(Seq::filter);
    if q.len() > 0 {
        lemma_no_key(q.drop_last(), k);
        assert(q.drop_last().push(q.last()) =~= q);
        q.drop_last().lemma_filter_push(q.last(), key_is::<T>(k));
    } else {
        assert(q.filter(key_is::<T>(k)) =~= Seq::<(u32, T)>::empty());
    }
}

/// Sorting by key orders the items by nondecreasing key and keeps, for each
/// key, its items in the order they came: a stable sort, and so a
/// rearrangement of the same items.
pub proof fn lemma_keyed_sort<T>(s: Seq<(u32, T)>)
    ensures
        keyed_sort(s).len() == s.len(),
        forall|i: int, j: int| 0 <= i <= j < s.len() ==> (#[trigger] keyed_sort(s)[i]).0 <= (#[trigger] keyed_sort(s)[j]).0,
        forall|k: u32| #[trigger] with_key(keyed_sort(s), k) == with_key(s, k),
    decreases s.len(),
{
    if s.len() > 0 {
        let init = s.drop_last();
        let x = s.last();
        lemma_keyed_sort(init);
        let p = keyed_sort(init);
        lemma_key_upper(p, x.0, 0);
        let u = key_upper(p, x.0, 0);
        let r = p.insert(u, x);
        assert(keyed_sort(s) == r);
        assert forall|i: int, j: int| 0 <= i <= j < s.len() implies (#[trigger] r[i]).0 <= (#[trigger] r[j]).0 by {
            if j < u {
                assert(r[i] == p[i] && r[j] == p[j]);
            } else if i > u {
                assert(r[i] == p[i - 1] && r[j] == p[j - 1]);
            } else if i < u && j == u {
                assert(r[i] == p[i]);
            } else if i < u && j > u {
                assert(r[i] == p[i] && r[j] == p[j - 1]);
                assert(p[u].0 > x.0);
                assert(p[u].0 <= p[j - 1].0);
            } else if i == u && j > u {
                assert(r[j] == p[j - 1]);
                assert(p[u].0 > x.0);
                assert(p[u].0 <= p[j - 1].0);
            }
        }
        assert(s =~= init.push(x));
        assert(r =~= p.take(u) + seq![x] + p.skip(u));
        assert(p =~= p.take(u) + p.skip(u));
        assert forall|k: u32| #[trigger] with_key(r, k) == with_key(s, k) by {
            let f = key_is::<T>(k);
            let a = p.take(u);
            let b = p.skip(u);
            let xs = seq![x];
            Seq::filter_distributes_over_add(a + xs, b, f);
            Seq::filter_distributes_over_add(a, xs, f);
            Seq::filter_distributes_over_add(a, b, f);
            init.lemma_filter_push(x, f);
            Seq::<(u32, T)>::empty().lemma_filter_push(x, f);
            assert(xs =~= Seq::<(u32, T)>::empty().push(x));
            assert(Seq::<(u32, T)>::empty().filter(f) =~= Seq::<(u32, T)>::empty()) by {
                reveal(Seq::filter);
            }
            assert(with_key(p, k) == with_key(init, k));
            assert(r.filter(f) == a.filter(f) + xs.filter(f) + b.filter(f));
            assert(p.filter(f) == a.filter(f) + b.filter(f));
            if x.0 == k {
                assert(f(x));
                assert(xs.filter(f) == seq![x]);
                assert forall|i: int| 0 <= i < b.len() implies (#[trigger] b[i]).0 != k by {
                    assert(b[i] == p[u + i]);
                    assert(p[u].0 <= p[u + i].0);
                }
                lemma_no_key(b, k);
                assert(b.filter(f) == Seq::<(u32, T)>::empty());
                assert(p.filter(f) =~= a.filter(f));
                assert(r.filter(f) =~= a.filter(f).push(x));
                assert(s.filter(f) == init.filter(f).push(x));
            } else {
                assert(!f(x));
                assert(xs.filter(f) == Seq::<(u32, T)>::empty());
                assert(r.filter(f) =~= a.filter(f) + b.filter(f));
                assert(s.filter(f) == init.filter(f));
            }
        }
    }
}


/// Every base `bases_in` lists is the base of an entry.
proof fn lemma_bases_in_from_entries(es: Seq<(Seq<char>, Seq<Seq<char>>)>, d: Seq<char>, x: Seq<char>)
    requires
        bases_in(es, d).contains(x),
    ensures
        exists|i: int| 0 <= i < es.len() && (#[trigger] es[i]).0 == x,
    decreases es.len(),
{
    let rest = bases_in(es.drop_first(), d);
    if es[0].0 == x {
        assert(es[0].0 == x);
    } else {
        if es[0].1.contains(d) {
            let k = choose|k: int| 0 <= k < bases_in(es, d).len() && bases_in(es, d)[k] == x;
            assert(k > 0);
            assert(rest[k - 1] == x);
        }
        lemma_bases_in_from_entries(es.drop_first(), d, x);
        let i = choose|i: int| 0 <= i < es.drop_first().len() && (#[trigger] es.drop_first()[i]).0 == x;
        assert(es[i + 1].0 == x);
    }
}

/// In a hierarchy where each base has one entry, RTTI lists `derived` under
/// `base` exactly when `base` is among the bases of `derived`: what
/// `ClassHierarchy::is_base_of` and `ClassHierarchy::bases_of` report agree.
pub proof fn lemma_bases_agree(es: Seq<(Seq<char>, Seq<Seq<char>>)>, base: Seq<char>, derived: Seq<char>)
    requires
        distinct_bases(es),
    ensures
        bases_in(es, derived).contains(base) <==> (derived_in(es, base) matches Some(ds) && ds.contains(derived)),
    decreases es.len(),
{
    if es.len() > 0 {
        let tail = es.drop_first();
        let rest = bases_in(tail, derived);
        assert(distinct_bases(tail)) by {
            assert forall|i: int, j: int| 0 <= i < j < tail.len() implies (#[trigger] tail[i]).0 != (#[trigger] tail[j]).0 by {
                assert(tail[i] == es[i + 1] && tail[j] == es[j + 1]);
            }
        }
        lemma_bases_agree(tail, base, derived);
        let whole = bases_in(es, derived);
        if es[0].1.contains(derived) {
            assert(whole == seq![es[0].0] + rest);
            assert(whole.contains(base) <==> (es[0].0 == base || rest.contains(base))) by {
                if whole.contains(base) {
                    let k = choose|k: int| 0 <= k < whole.len() && whole[k] == base;
                    if k > 0 {
                        assert(rest[k - 1] == base);
                    }
                }
                if es[0].0 == base {
                    assert(whole[0] == base);
                }
                if rest.contains(base) {
                    let k = choose|k: int| 0 <= k < rest.len() && rest[k] == base;
                    assert(whole[k + 1] == base);
                }
            }
        }
        if es[0].0 == base && rest.contains(base) {
            lemma_bases_in_from_entries(tail, derived, base);
            let i = choose|i: int| 0 <= i < tail.len() && (#[trigger] tail[i]).0 == base;
            assert(es[i + 1].0 == es[0].0);
        }
    }
}


/// Field candidates as an extraction gives them: no name twice, every name
/// a wire field name (see [`valid_field_name`]) read from a string literal,
/// and no field of an optional type required.
pub open spec fn sound_candidates(fs: Seq<CandidateShape>) -> bool {
    &&& candidate_names(fs).no_duplicates()
    &&& forall|i: int| 0 <= i < fs.len() ==> valid_field_name((#[trigger] fs[i]).name)
    &&& forall|i: int| 0 <= i < fs.len() ==> (#[trigger] fs[i]).name_source == name_source_text()
    &&& forall|i: int| 0 <= i < fs.len() ==> (#[trigger] fs[i]).required ==> !fs[i].field_type.optional
}

/// Committing a pending field keeps the candidates sound.
proof fn lemma_commit_sound(fields: Seq<CandidateShape>, pf: PendingShape, frva: u32)
    requires
        sound_candidates(fields),
        valid_field_name(pf.name),
    ensures
        sound_candidates(commit(fields, pf, frva)),
{
    let r = commit(fields, pf, frva);
    if r != fields {
        let c = r.last();
        assert(r == fields.push(c));
        assert(!candidate_names(fields).contains(c.name));
        assert(candidate_names(r) =~= candidate_names(fields).push(c.name));
        assert forall|i: int, j: int| 0 <= i < candidate_names(r).len() && 0 <= j < candidate_names(r).len()
            && i != j implies candidate_names(r)[i] != candidate_names(r)[j] by {
            if i == fields.len() {
                assert(candidate_names(fields)[j] == candidate_names(r)[j]);
            } else if j == fields.len() {
                assert(candidate_names(fields)[i] == candidate_names(r)[i]);
            }
        }
        assert forall|i: int| 0 <= i < r.len() implies valid_field_name((#[trigger] r[i]).name) by {
            if i < fields.len() {
                assert(r[i] == fields[i]);
            }
        }
        assert forall|i: int| 0 <= i < r.len() implies (#[trigger] r[i]).name_source == name_source_text() by {
            if i < fields.len() {
                assert(r[i] == fields[i]);
            }
        }
        assert forall|i: int| 0 <= i < r.len() implies (#[trigger] r[i]).required ==> !r[i].field_type.optional by {
            if i < fields.len() {
                assert(r[i] == fields[i]);
            }
        }
    }
}

/// The candidates so far are sound and the field under way has a wire
/// field name.
pub open spec fn sound_state(st: ExtractState) -> bool {
    &&& sound_candidates(st.fields)
    &&& st.pending matches Some(pf) ==> valid_field_name(pf.name)
}

/// One instruction keeps the candidates sound.
#[verifier::rlimit(40)]
proof fn lemma_step_sound(pe: &PeImage, rtti: &RttiEngine, frva: u32, st0: ExtractState, i: InsnShape)
    requires
        sound_state(st0),
    ensures
        sound_state(extract_step(pe, rtti, frva, st0, i)),
{
    let st = ExtractState { idx: st0.idx + 1, ..st0 };
    if i.mnemonic == "Lea"@ {
        match st.pending {
            Some(pf) => lemma_commit_sound(st.fields, pf, frva),
            None => {},
        }
    }
}

/// The candidates after any number of instructions are sound.
proof fn lemma_prefix_sound(pe: &PeImage, rtti: &RttiEngine, frva: u32, ins: Seq<InsnShape>, n: int)
    ensures
        sound_state(extract_prefix(pe, rtti, frva, ins, n)),
    decreases n,
{
    if n <= 0 {
        assert(candidate_names(Seq::<CandidateShape>::empty()) =~= Seq::<Seq<char>>::empty());
    } else {
        lemma_prefix_sound(pe, rtti, frva, ins, n - 1);
        lemma_step_sound(pe, rtti, frva, extract_prefix(pe, rtti, frva, ins, n - 1), ins[n - 1]);
    }
}

/// Every field candidate an initializer yields has a name no earlier
/// candidate has, a name read from a string literal, and is required only
/// when its type is not optional: an optional field is never required.
pub proof fn lemma_extracted_candidates(pe: &PeImage, rtti: &RttiEngine, rva: u32)
    ensures
        sound_candidates(extracted_candidates(pe, rtti, rva)),
{
    match crate::pe::containing_function(pe.pdata@, rva) {
        Some(f) => match crate::pe::bytes_at(pe.raw@, pe.sections_spec(), f.begin_address, crate::extractor::entry_len(f) as int) {
            Some(b) => {
                let ins = crate::decode::decoded(b, crate::pe::code_ip(pe.image_base, f.begin_address));
                let st = extract_prefix(pe, rtti, f.begin_address, ins, ins.len() as int);
                lemma_prefix_sound(pe, rtti, f.begin_address, ins, ins.len() as int);
                match st.pending {
                    Some(pf) => lemma_commit_sound(st.fields, pf, f.begin_address),
                    None => {},
                }
            },
            None => {
                assert(candidate_names(Seq::<CandidateShape>::empty()) =~= Seq::<Seq<char>>::empty());
            },
        },
        None => {
            assert(candidate_names(Seq::<CandidateShape>::empty()) =~= Seq::<Seq<char>>::empty());
        },
    }
}


/// Every field an initializer yields has a wire field name no other field
/// has, and is required only when its type is not optional; this holds of
/// any function of any image.
pub proof fn lemma_extracted_fields(pe: &PeImage, rtti: &RttiEngine, rva: u32)
    ensures
        sound_fields(extracted_fields(pe, rtti, rva)),
{
    lemma_extracted_candidates(pe, rtti, rva);
    let cs = extracted_candidates(pe, rtti, rva);
    let fs = extracted_fields(pe, rtti, rva);
    assert(field_names(fs) =~= candidate_names(cs));
    assert forall|i: int| 0 <= i < fs.len() implies valid_field_name((#[trigger] fs[i]).name) && (fs[i].required
        ==> !fs[i].field_type.optional) by {
        assert(fs[i] == candidate_field(cs[i]));
    }
}

proof fn lemma_direct_evidence_scream(keys: Seq<Seq<char>>, vals: Seq<NameSet>, rva: u32, n: int)
    ensures
        forall|i: int| 0 <= i < direct_evidence(keys, vals, rva, n).len() ==> scream_case(
            (#[trigger] direct_evidence(keys, vals, rva, n)[i]).value,
        ) && direct_evidence(keys, vals, rva, n)[i].function_rva == rva,
    decreases n,
{
    if n > 0 {
        lemma_direct_evidence_scream(keys, vals, rva, n - 1);
        let rest = direct_evidence(keys, vals, rva, n - 1);
        let r = direct_evidence(keys, vals, rva, n);
        assert forall|i: int| 0 <= i < r.len() implies scream_case((#[trigger] r[i]).value) && r[i].function_rva
            == rva by {
            if i < rest.len() {
                assert(r[i] == rest[i]);
            }
        }
    }
}

/// All evidence the factory facts give is a SCREAM_CASE value, read from a
/// fact that was not ambiguous, at that fact's function.
pub proof fn lemma_evidence_is_scream_case(facts: Seq<FactoryDiscriminatorFacts>)
    ensures
        forall|i: int| 0 <= i < facts_evidence(facts).len() ==> scream_case((#[trigger] facts_evidence(facts)[i]).value)
            && exists|j: int| 0 <= j < facts.len() && !facts[j].ambiguous_type_assignment
                && facts[j].function_rva == facts_evidence(facts)[i].function_rva,
    decreases facts.len(),
{
    if facts.len() > 0 {
        let init = facts.drop_last();
        lemma_evidence_is_scream_case(init);
        let f = facts.last();
        let ev = facts_evidence(facts);
        let a = facts_evidence(init);
        let b = fact_evidence(f);
        assert(ev == a + b);
        if !f.ambiguous_type_assignment {
            lemma_direct_evidence_scream(
                f.direct_type_assignments.keys(),
                f.direct_type_assignments.vals(),
                f.function_rva,
                f.direct_type_assignments.keys().len() as int,
            );
        }
        assert forall|i: int| 0 <= i < ev.len() implies scream_case((#[trigger] ev[i]).value) && exists|j: int|
            0 <= j < facts.len() && !facts[j].ambiguous_type_assignment && facts[j].function_rva == ev[i].function_rva by {
            if i < a.len() {
                assert(ev[i] == a[i]);
                let j = choose|j: int| 0 <= j < init.len() && !init[j].ambiguous_type_assignment
                    && init[j].function_rva == a[i].function_rva;
                assert(facts[j] == init[j]);
            } else {
                assert(ev[i] == b[i - a.len()]);
                assert(facts[facts.len() - 1] == f);
            }
        }
    }
}


/// Every item sorting by key gives is an item of the input.
pub proof fn lemma_keyed_sort_items<T>(s: Seq<(u32, T)>, i: int)
    requires
        0 <= i < keyed_sort(s).len(),
    ensures
        s.contains(keyed_sort(s)[i]),
{
    lemma_keyed_sort(s);
    let r = keyed_sort(s);
    let x = r[i];
    let f = key_is::<T>(x.0);
    r.lemma_filter_contains(f, i);
    assert(with_key(r, x.0) == with_key(s, x.0));
    s.lemma_filter_contains_rev(f, x);
}

/// Items sorted by a key that is each item's own number come in
/// nondecreasing order of that number.
proof fn lemma_sorted_by_own_key<T>(pairs: Seq<(u32, T)>, num: spec_fn(T) -> u32)
    requires
        forall|i: int| 0 <= i < pairs.len() ==> (#[trigger] pairs[i]).0 == num(pairs[i].1),
    ensures
        forall|i: int, j: int| 0 <= i <= j < pairs.len() ==> num(#[trigger] seconds(keyed_sort(pairs))[i]) <= num(
            #[trigger] seconds(keyed_sort(pairs))[j],
        ),
        seconds(keyed_sort(pairs)).len() == pairs.len(),
{
    lemma_keyed_sort(pairs);
    let r = keyed_sort(pairs);
    assert forall|i: int| 0 <= i < r.len() implies (#[trigger] r[i]).0 == num(r[i].1) by {
        lemma_keyed_sort_items(pairs, i);
        let k = choose|k: int| 0 <= k < pairs.len() && pairs[k] == r[i];
    }
    assert forall|i: int, j: int| 0 <= i <= j < pairs.len() implies num(#[trigger] seconds(r)[i]) <= num(
        #[trigger] seconds(r)[j],
    ) by {
        assert(r[i].0 <= r[j].0);
    }
}

/// A dump lists one packet for each packet the scanner found and one event
/// for each event, packets and events in nondecreasing order of opcode. In
/// each of its polymorphic groups the base is neither a wire variant nor an
/// RTTI subclass, a group not met in a protocol field has no wire variants,
/// RTTI subclasses carry no tag, and the group has a discriminator exactly
/// when its base has a `_type` field. Its catalogue names each model once
/// and holds no top-level request or response type.
pub proof fn lemma_dump(
    pe: &PeImage,
    rtti: &RttiEngine,
    scanner: &ProtocolScanner,
    r: DumpWithDiagnostics,
    t: DumpTrace,
)
    requires
        dump_outcome(pe, rtti, scanner, r, t),
    ensures
        forall|i: int, j: int| 0 <= i <= j < r.dump.packets.len() ==> (#[trigger] r.dump.packets@[i]).opcode
            <= (#[trigger] r.dump.packets@[j]).opcode,
        forall|i: int, j: int| 0 <= i <= j < r.dump.events.len() ==> (#[trigger] r.dump.events@[i]).opcode
            <= (#[trigger] r.dump.events@[j]).opcode,
        r.dump.packets.len() == scanner.packets.len(),
        r.dump.events.len() == scanner.events.len(),
        forall|i: int| 0 <= i < r.dump.polymorphic_models.len() ==> {
            let g = (#[trigger] r.dump.polymorphic_models@[i])@;
            &&& !variant_names(g.variants).contains(g.name)
            &&& !variant_names(g.rtti_subclasses).contains(g.name)
            &&& !g.root_sources.contains("protocol_field"@) ==> g.variants.len() == 0
            &&& forall|j: int| 0 <= j < g.rtti_subclasses.len() ==> (#[trigger] g.rtti_subclasses[j]).tag is None
            &&& (g.discriminator is Some <==> field_names(g.base_fields).contains("_type"@))
        },
        forall|m: int, q: int| 0 <= m < q < r.dump.models.len() ==> (#[trigger] r.dump.models@[m]).name@ != (
        #[trigger] r.dump.models@[q]).name@,
        forall|m: int| 0 <= m < r.dump.models.len() ==> !entry_names(
            top_level_entries(r.dump.packets@, r.dump.events@),
        ).contains(#[trigger] r.dump.models@[m].name@),
{
    let pp = t.packet_pairs;
    let ep = t.event_pairs;
    let pnum = |p: PacketEntry| p.opcode;
    let enumr = |e: EventEntry| e.opcode;
    assert forall|i: int| 0 <= i < pp.len() implies (#[trigger] pp[i]).0 == pnum(pp[i].1) by {
        assert(crate::dumper::packet_from(scanner.packets@[i], pp[i].1, t.packets_log.subrange(2 * i, 2 * i + 2)));
    }
    assert forall|i: int| 0 <= i < ep.len() implies (#[trigger] ep[i]).0 == enumr(ep[i].1) by {
        assert(crate::dumper::event_from(
            scanner.events@[i],
            ep[i].1,
            t.events_log.subrange(
                crate::dumper::event_lookups(scanner.events@, i),
                crate::dumper::event_lookups(scanner.events@, i + 1),
            ),
        ));
    }
    lemma_sorted_by_own_key(pp, pnum);
    lemma_sorted_by_own_key(ep, enumr);
    let h = rtti.hierarchy.entries();
    let polys = r.dump.polymorphic_models@;
    assert forall|i: int| 0 <= i < r.dump.polymorphic_models.len() implies {
        let g = (#[trigger] r.dump.polymorphic_models@[i])@;
        &&& !variant_names(g.variants).contains(g.name)
        &&& !variant_names(g.rtti_subclasses).contains(g.name)
        &&& !g.root_sources.contains("protocol_field"@) ==> g.variants.len() == 0
        &&& forall|j: int| 0 <= j < g.rtti_subclasses.len() ==> (#[trigger] g.rtti_subclasses[j]).tag is None
        &&& (g.discriminator is Some <==> field_names(g.base_fields).contains("_type"@))
    } by {
        lemma_polymorphic_group(t.roots, h, t.values, t.groups_log, polys, t.group_names, i);
        let g = polys[i]@;
        let src = t.roots.vals()[i];
        if src.protocol_field {
            assert(variant_names(g.variants) =~= variant_names(g.rtti_subclasses)) by {
                assert forall|j: int| 0 <= j < g.variants.len() implies #[trigger] variant_names(g.variants)[j]
                    == variant_names(g.rtti_subclasses)[j] by {
                    assert(g.variants[j].name == g.rtti_subclasses[j].name);
                }
            }
        } else {
            assert(variant_names(g.variants) =~= Seq::<Seq<char>>::empty());
            assert(!g.root_sources.contains("protocol_field"@) ==> g.variants.len() == 0);
        }
        if !src.protocol_field {
            assert(g.variants.len() == 0);
        } else {
            assert(g.root_sources.contains("protocol_field"@)) by {
                assert(g.root_sources[0] == "protocol_field"@);
            }
        }
    }
    assert forall|m: int, q: int| 0 <= m < q < r.dump.models.len() implies (#[trigger] r.dump.models@[m]).name@ != (
    #[trigger] r.dump.models@[q]).name@ by {
        lemma_model_catalog(r.dump.packets@, r.dump.events@, polys, t.catalog_log, r.dump.models@, m);
    }
    assert forall|m: int| 0 <= m < r.dump.models.len() implies !entry_names(
        top_level_entries(r.dump.packets@, r.dump.events@),
    ).contains(#[trigger] r.dump.models@[m].name@) by {
        lemma_model_catalog(r.dump.packets@, r.dump.events@, polys, t.catalog_log, r.dump.models@, m);
    }
}


/// Every decomposed type is consistent: it is polymorphic exactly when it
/// has a polymorphic base, and, unless it is a map, then bears that base as
/// its name; it is a map exactly when it has both a key and a value type,
/// and a map has no name.
pub proof fn lemma_decomposed_type(raw: Seq<char>)
    ensures
        ({
            let t = decompose_spec(raw);
            &&& t.polymorphic <==> t.polymorphic_base is Some
            &&& t.polymorphic && !t.map ==> t.name == t.polymorphic_base
            &&& t.map <==> (t.map_key is Some && t.map_value is Some)
            &&& t.map ==> t.name is None
        }),
{
}


/// Every polymorphic root was found through a protocol field, through the
/// RTTI heuristic, or both. The heuristic mark depends on RTTI alone: every
/// class RTTI marks is a root with that mark, and a heuristic root met in a
/// protocol field keeps it. A class is a root found through a protocol
/// field exactly when it is the polymorphic base of a field of a top-level
/// entry or of a model the walk resolved.
pub proof fn lemma_roots(
    packets: Seq<PacketEntry>,
    events: Seq<EventEntry>,
    h: Seq<(Seq<char>, Seq<Seq<char>>)>,
    log: Seq<(Seq<char>, EntryShape)>,
    roots: NameMap<RootSources>,
    k: Seq<char>,
)
    requires
        roots_outcome(packets, events, h, log, roots),
    ensures
        roots.spec_get(k) matches Some(s) ==> (s.protocol_field || s.rtti_heuristic) && s.rtti_heuristic
            == heuristic_root(h, k),
        heuristic_root(h, k) ==> (roots.spec_get(k) matches Some(s) && s.rtti_heuristic),
        (roots.spec_get(k) matches Some(s) && s.protocol_field) <==> crate::dumper::entries_bases(
            top_level_entries(packets, events) + crate::dumper::looked_up(log),
        ).contains(k),
{
    assert(roots.spec_get(k) == crate::dumper::expected_root(
        h,
        crate::dumper::entries_bases(top_level_entries(packets, events) + crate::dumper::looked_up(log)),
        k,
    ));
}


/// The width in bits of the integer type a C++ base spelling names.
pub open spec fn base_width(b: Seq<char>) -> Option<nat> {
    if b == "char"@ {
        Some(8)
    } else if b == "short"@ {
        Some(16)
    } else if b == "int"@ {
        Some(32)
    } else if b == "__int64"@ || b == "long long"@ {
        Some(64)
    } else {
        None
    }
}

/// The width and signedness (`true` for unsigned) of the integer type an
/// MSVC spelling names: `unsigned` before a base spelling makes it
/// unsigned; `signed char`, `short`, `int`, `__int64` and `long long` are
/// signed. A bare `char` names no fixed type.
pub open spec fn spelling_width(s: Seq<char>) -> Option<(nat, bool)> {
    if has_prefix(s, "unsigned "@) {
        match base_width(s.subrange(9, s.len() as int)) {
            Some(w) => Some((w, true)),
            None => None,
        }
    } else if s == "signed char"@ {
        Some((8, false))
    } else if s == "char"@ {
        None
    } else {
        match base_width(s) {
            Some(w) => Some((w, false)),
            None => None,
        }
    }
}

/// The decimal text of a width.
pub open spec fn width_digits(w: nat) -> Seq<char> {
    if w == 8 {
        "8"@
    } else if w == 16 {
        "16"@
    } else if w == 32 {
        "32"@
    } else {
        "64"@
    }
}

/// The fixed-width name of an integer type: `uintN_t` when unsigned,
/// `intN_t` when signed, and `char` for the signed byte.
pub open spec fn fixed_width_name(w: nat, unsigned: bool) -> Seq<char> {
    if w == 8 && !unsigned {
        "char"@
    } else if unsigned {
        "u"@ + "int"@ + width_digits(w) + "_t"@
    } else {
        "int"@ + width_digits(w) + "_t"@
    }
}

/// Renaming an MSVC primitive spelling keeps its width and signedness: an
/// `unsigned` spelling becomes the `uintN_t` name of its width, a signed one
/// the `intN_t` name (the signed byte `char`); any other name is left as it
/// is.
pub proof fn lemma_primitive_keeps_width_and_sign(s: Seq<char>)
    ensures
        primitive_spec(s) == match spelling_width(s) {
            Some((w, u)) => fixed_width_name(w, u),
            None => s,
        },
{
    reveal_strlit("unsigned ");
    reveal_strlit("int");
    reveal_strlit("__int64");
    reveal_strlit("long long");
    reveal_strlit("short");
    reveal_strlit("char");
    reveal_strlit("signed char");
    reveal_strlit("unsigned int");
    reveal_strlit("unsigned __int64");
    reveal_strlit("unsigned long long");
    reveal_strlit("unsigned short");
    reveal_strlit("unsigned char");
    reveal_strlit("int32_t");
    reveal_strlit("int64_t");
    reveal_strlit("int16_t");
    reveal_strlit("uint32_t");
    reveal_strlit("uint64_t");
    reveal_strlit("uint16_t");
    reveal_strlit("uint8_t");
    reveal_strlit("u");
    reveal_strlit("_t");
    reveal_strlit("8");
    reveal_strlit("16");
    reveal_strlit("32");
    reveal_strlit("64");
    let u = "unsigned "@;
    assert("int"@ + "32"@ + "_t"@ =~= "int32_t"@);
    assert("int"@ + "64"@ + "_t"@ =~= "int64_t"@);
    assert("int"@ + "16"@ + "_t"@ =~= "int16_t"@);
    assert("u"@ + "int"@ + "32"@ + "_t"@ =~= "uint32_t"@);
    assert("u"@ + "int"@ + "64"@ + "_t"@ =~= "uint64_t"@);
    assert("u"@ + "int"@ + "16"@ + "_t"@ =~= "uint16_t"@);
    assert("u"@ + "int"@ + "8"@ + "_t"@ =~= "uint8_t"@);
    assert("unsigned int"@ =~= u + "int"@);
    assert("unsigned __int64"@ =~= u + "__int64"@);
    assert("unsigned long long"@ =~= u + "long long"@);
    assert("unsigned short"@ =~= u + "short"@);
    assert("unsigned char"@ =~= u + "char"@);
    if has_prefix(s, u) {
        let b = s.subrange(9, s.len() as int);
        assert(s.subrange(0, 9) == u);
        assert(s =~= u + b);
        assert(s == "unsigned int"@ <==> b == "int"@) by {
            if s == "unsigned int"@ {
                assert(b =~= "unsigned int"@.subrange(9, 12));
                assert("unsigned int"@.subrange(9, 12) =~= "int"@);
            }
        }
        assert(s == "unsigned __int64"@ <==> b == "__int64"@) by {
            if s == "unsigned __int64"@ {
                assert(b =~= "unsigned __int64"@.subrange(9, 16));
                assert("unsigned __int64"@.subrange(9, 16) =~= "__int64"@);
            }
        }
        assert(s == "unsigned long long"@ <==> b == "long long"@) by {
            if s == "unsigned long long"@ {
                assert(b =~= "unsigned long long"@.subrange(9, 18));
                assert("unsigned long long"@.subrange(9, 18) =~= "long long"@);
            }
        }
        assert(s == "unsigned short"@ <==> b == "short"@) by {
            if s == "unsigned short"@ {
                assert(b =~= "unsigned short"@.subrange(9, 14));
                assert("unsigned short"@.subrange(9, 14) =~= "short"@);
            }
        }
        assert(s == "unsigned char"@ <==> b == "char"@) by {
            if s == "unsigned char"@ {
                assert(b =~= "unsigned char"@.subrange(9, 13));
                assert("unsigned char"@.subrange(9, 13) =~= "char"@);
            }
        }
        assert(s.len() >= 9 && s[0] == 'u');
    } else {
        assert("unsigned int"@.subrange(0, 9) =~= u);
        assert(has_prefix("unsigned int"@, u));
        assert("unsigned __int64"@.subrange(0, 9) =~= u);
        assert(has_prefix("unsigned __int64"@, u));
        assert("unsigned long long"@.subrange(0, 9) =~= u);
        assert(has_prefix("unsigned long long"@, u));
        assert("unsigned short"@.subrange(0, 9) =~= u);
        assert(has_prefix("unsigned short"@, u));
        assert("unsigned char"@.subrange(0, 9) =~= u);
        assert(has_prefix("unsigned char"@, u));
    }
}

/// Every run of four to sixty-four bytes from `A`-`Z`, `0`-`9` and `_`
/// that sits between zero bytes and reads like an enumeration value is
/// found whole.
pub proof fn lemma_enum_value_found(s: Seq<u8>)
    requires
        4 <= s.len() <= 64,
        forall|i: int| 0 <= i < s.len() ==> {
            let b = #[trigger] s[i];
            ('A' as u8 <= b && b <= 'Z' as u8) || ('0' as u8 <= b && b <= '9' as u8) || b == '_' as u8
        },
        likely_enum(ascii_text(s)),
    ensures
        enum_tokens(seq![0u8] + s + seq![0u8], 0).contains(ascii_text(s)),
{
    let d = seq![0u8] + s + seq![0u8];
    let e: int = s.len() as int + 1;
    assert(!is_enum_byte(d[0]));
    assert(d[e] == 0u8);
    assert forall|k: int| 1 <= k < e implies is_enum_byte(#[trigger] d[k]) by {
        assert(d[k] == s[k - 1]);
    }
    lemma_run_to(d, 1, e);
    assert(d.subrange(1, e) =~= s);
    assert(enum_tokens(d, 0) == enum_tokens(d, 1));
    let t = ascii_text(s);
    assert(enum_tokens(d, 1) == seq![t] + enum_tokens(d, e));
    assert(enum_tokens(d, 1)[0] == t);
}

proof fn lemma_texts_differ(a: Seq<char>, b: Seq<char>, k: int)
    requires
        0 <= k < a.len(),
        k < b.len(),
        a[k] != b[k],
    ensures
        a != b,
{
}

proof fn lemma_run_to(d: Seq<u8>, i: int, e: int)
    requires
        1 <= i <= e < d.len(),
        forall|k: int| i <= k < e ==> is_enum_byte(#[trigger] d[k]),
        !is_enum_byte(d[e]),
    ensures
        run_end(d, i) == e,
    decreases e - i,
{
    if i < e {
        lemma_run_to(d, i + 1, e);
    }
}

/// Every base class in `Api::OneMe` whose name ends in `Attachment` or
/// `Params` and that RTTI lists with a subclass is a root, marked as found
/// by the RTTI heuristic.
pub proof fn lemma_named_bases_are_roots(
    packets: Seq<PacketEntry>,
    events: Seq<EventEntry>,
    h: Seq<(Seq<char>, Seq<Seq<char>>)>,
    log: Seq<(Seq<char>, EntryShape)>,
    roots: NameMap<RootSources>,
    i: int,
)
    requires
        roots_outcome(packets, events, h, log, roots),
        0 <= i < h.len(),
        has_prefix(h[i].0, "Api::OneMe::"@),
        has_suffix(h[i].0, "Attachment"@) || has_suffix(h[i].0, "Params"@),
        h[i].1.len() > 0,
    ensures
        roots.spec_get(h[i].0) matches Some(r) && r.rtti_heuristic,
{
    assert(heuristic_root(h, h[i].0));
}

/// A register-to-register `mov` copies what the source register is known
/// to hold into the destination, and changes nothing else the scan tracks.
pub proof fn lemma_mov_copies_register(
    pe: &PeImage,
    rtti: &RttiEngine,
    cands: Seq<Seq<char>>,
    st: ScanState,
    i: InsnShape,
)
    requires
        i.mnemonic == "Mov"@,
        i.op0_kind == "Register"@,
        i.op1_kind == "Register"@,
    ensures
        scan_step(pe, rtti, cands, st, i).regs.get(i.op0_full_register) == st.regs.get(i.op1_full_register),
        forall|r: Seq<char>| r != i.op0_full_register ==> #[trigger] scan_step(pe, rtti, cands, st, i).regs.get(r)
            == st.regs.get(r),
        scan_step(pe, rtti, cands, st, i).constructed == st.constructed,
        scan_step(pe, rtti, cands, st, i).assigns == st.assigns,
        scan_step(pe, rtti, cands, st, i).direct == st.direct,
        scan_step(pe, rtti, cands, st, i).ambiguous == st.ambiguous,
{
    reveal_strlit("Mov");
    reveal_strlit("Lea");
    lemma_texts_differ("Mov"@, "Lea"@, 0);
    let r2 = scan_step(pe, rtti, cands, st, i).regs;
    assert forall|r: Seq<char>| r != i.op0_full_register implies #[trigger] r2.get(r) == st.regs.get(r) by {}
}

/// A register-to-register `mov` in an initializer copies what the source
/// register is known to hold into the destination.
pub proof fn lemma_extract_mov_copies_register(pe: &PeImage, rtti: &RttiEngine, frva: u32, st: ExtractState, i: InsnShape)
    requires
        i.mnemonic == "Mov"@,
        i.op0_kind == "Register"@,
        i.op1_kind == "Register"@,
    ensures
        extract_step(pe, rtti, frva, st, i).regs.get(i.op0_full_register) == st.regs.get(i.op1_full_register),
        forall|r: Seq<char>| r != i.op0_full_register ==> #[trigger] extract_step(pe, rtti, frva, st, i).regs.get(r)
            == st.regs.get(r),
        extract_step(pe, rtti, frva, st, i).pending == st.pending,
        extract_step(pe, rtti, frva, st, i).fields == st.fields,
{
    reveal_strlit("Mov");
    reveal_strlit("Lea");
    reveal_strlit("Memory");
    reveal_strlit("Register");
    lemma_texts_differ("Mov"@, "Lea"@, 0);
    lemma_texts_differ("Register"@, "Memory"@, 0);
    let r2 = extract_step(pe, rtti, frva, st, i).regs;
    assert forall|r: Seq<char>| r != i.op0_full_register implies #[trigger] r2.get(r) == st.regs.get(r) by {}
}

/// Storing the registration's flag to the stack marks the pending field:
/// `1` makes it required, `2` optional.
pub proof fn lemma_stored_flag_marks_required(
    pe: &PeImage,
    rtti: &RttiEngine,
    frva: u32,
    st: ExtractState,
    i: InsnShape,
    pf: PendingShape,
)
    requires
        i.mnemonic == "Mov"@,
        i.op0_kind == "Memory"@,
        i.memory_base != "RIP"@,
        i.memory_base != "None"@,
        i.op1_kind == "Immediate32"@ || i.op1_kind == "Immediate8"@,
        i.immediate32 == 1 || i.immediate32 == 2,
        st.pending == Some(pf),
        pf.field_type_name is Some,
        st.idx + 1 - (match pf.type_idx {
            Some(x) => x,
            None => 0,
        }) <= 10,
    ensures
        extract_step(pe, rtti, frva, st, i).pending matches Some(p) && p.name == pf.name && p.field_type_name
            == pf.field_type_name && (i.immediate32 == 1 ==> p.required == Some(true)) && (i.immediate32 == 2
            ==> p.required == Some(false)),
{
    reveal_strlit("Mov");
    reveal_strlit("Lea");
    lemma_texts_differ("Mov"@, "Lea"@, 0);
}

/// Passing the registration's flag in `R9` records it: `1` for required,
/// `2` for optional.
pub proof fn lemma_r9_flag_recorded(pe: &PeImage, rtti: &RttiEngine, frva: u32, st: ExtractState, i: InsnShape)
    requires
        i.mnemonic == "Mov"@,
        i.op0_kind == "Register"@,
        i.op0_full_register == "R9"@,
        i.op1_kind == "Immediate32"@ || i.op1_kind == "Immediate8"@,
        i.immediate32 == 1 || i.immediate32 == 2,
    ensures
        i.immediate32 == 1 ==> extract_step(pe, rtti, frva, st, i).r9 == Some(true),
        i.immediate32 == 2 ==> extract_step(pe, rtti, frva, st, i).r9 == Some(false),
{
    reveal_strlit("Mov");
    reveal_strlit("Lea");
    reveal_strlit("Memory");
    reveal_strlit("Register");
    reveal_strlit("Immediate32");
    reveal_strlit("Immediate8");
    lemma_texts_differ("Mov"@, "Lea"@, 0);
    lemma_texts_differ("Register"@, "Memory"@, 0);
    lemma_texts_differ("Immediate32"@, "Register"@, 0);
    lemma_texts_differ("Immediate8"@, "Register"@, 0);
}

/// At a call, the pending field takes the flag recorded from `R9`.
pub proof fn lemma_call_takes_r9_flag(
    pe: &PeImage,
    rtti: &RttiEngine,
    frva: u32,
    st: ExtractState,
    i: InsnShape,
    pf: PendingShape,
    req: bool,
)
    requires
        i.mnemonic == "Call"@,
        st.pending == Some(pf),
        st.r9 == Some(req),
    ensures
        extract_step(pe, rtti, frva, st, i).pending matches Some(p) && p.name == pf.name && p.required == Some(req),
        extract_step(pe, rtti, frva, st, i).r9 is None,
{
    reveal_strlit("Call");
    reveal_strlit("Lea");
    reveal_strlit("Mov");
    reveal_strlit("Xor");
    reveal_strlit("Sub");
    lemma_texts_differ("Call"@, "Lea"@, 0);
    lemma_texts_differ("Call"@, "Mov"@, 0);
    lemma_texts_differ("Call"@, "Xor"@, 0);
    lemma_texts_differ("Call"@, "Sub"@, 0);
}

/// A field added from a pending registration is required when the flag
/// marked it required and its type is not optional, and never when the
/// flag marked it optional.
pub proof fn lemma_commit_required(fields: Seq<CandidateShape>, pf: PendingShape, frva: u32)
    requires
        pf.field_type_name is Some,
        !candidate_names(fields).contains(pf.name),
    ensures
        commit(fields, pf, frva).len() == fields.len() + 1,
        pf.required == Some(false) ==> !commit(fields, pf, frva).last().required,
        pf.required == Some(true) && !decompose_spec(pf.field_type_name->0).optional ==> commit(
            fields,
            pf,
            frva,
        ).last().required,
{
}

/// Normalising a name that holds no template renames an MSVC primitive
/// spelling, qualifiers and surrounding spaces aside, to the fixed-width
/// name of the same width and signedness, and leaves any other name
/// stripped.
pub proof fn lemma_normalize_keeps_width_and_sign(raw: Seq<char>)
    requires
        !contains_seq(strip_spec(raw), seq!['<']),
    ensures
        normalize_spec(raw) == match spelling_width(strip_spec(raw)) {
            Some((w, u)) => fixed_width_name(w, u),
            None => strip_spec(raw),
        },
{
    lemma_primitive_keeps_width_and_sign(strip_spec(raw));
    if strip_spec(raw).len() == 0 {
        reveal_strlit("unsigned ");
        reveal_strlit("signed char");
        reveal_strlit("char");
        reveal_strlit("short");
        reveal_strlit("int");
        reveal_strlit("__int64");
        reveal_strlit("long long");
        assert(!has_prefix(strip_spec(raw), "unsigned "@));
        assert(spelling_width(strip_spec(raw)) is None);
    }
}

/// The byte class of upper-case enumeration values: `A`-`Z`, `0`-`9`, `_`.
pub open spec fn upper_enum_class(b: u8) -> bool {
    ('A' as u8 <= b && b <= 'Z' as u8) || ('0' as u8 <= b && b <= '9' as u8) || b == '_' as u8
}

/// Every enumeration value found in `d` from `j` on is a whole run of four
/// to sixty-four bytes of the upper-case class, read as text, that starts
/// where the data or a byte outside the class ends, is followed by a zero
/// byte, and reads like an enumeration value.
pub open spec fn found_as_run(d: Seq<u8>, j: int, t: Seq<char>) -> bool {
    exists|i: int|
        #![trigger d.subrange(i, i + t.len())]
        {
            &&& j <= i
            &&& 0 <= i
            &&& i + t.len() < d.len()
            &&& (i == 0 || !upper_enum_class(d[i - 1]))
            &&& forall|k: int| i <= k < i + t.len() ==> upper_enum_class(#[trigger] d[k])
            &&& d[i + t.len()] == 0
            &&& t == ascii_text(d.subrange(i, i + t.len()))
            &&& 4 <= t.len() <= 64
            &&& likely_enum(t)
        }
}

proof fn lemma_enum_tokens_runs(d: Seq<u8>, j: int)
    requires
        0 <= j,
        j == 0 || j >= d.len() || !is_enum_byte(d[j - 1]) || !is_enum_byte(d[j]),
    ensures
        forall|q: int| 0 <= q < enum_tokens(d, j).len() ==> found_as_run(d, j, #[trigger] enum_tokens(d, j)[q]),
    decreases d.len() - j,
{
    if j < d.len() {
        if !is_enum_byte(d[j]) {
            lemma_enum_tokens_runs(d, j + 1);
            assert(enum_tokens(d, j) == enum_tokens(d, j + 1));
            assert forall|q: int| 0 <= q < enum_tokens(d, j).len() implies found_as_run(d, j, #[trigger] enum_tokens(d, j)[q]) by {
                let t = enum_tokens(d, j)[q];
                assert(found_as_run(d, j + 1, t));
                let i = choose|i: int|
                    #![trigger d.subrange(i, i + t.len())]
                    {
                        &&& j + 1 <= i
                        &&& 0 <= i
                        &&& i + t.len() < d.len()
                        &&& (i == 0 || !upper_enum_class(d[i - 1]))
                        &&& forall|k: int| i <= k < i + t.len() ==> upper_enum_class(#[trigger] d[k])
                        &&& d[i + t.len()] == 0
                        &&& t == ascii_text(d.subrange(i, i + t.len()))
                        &&& 4 <= t.len() <= 64
                        &&& likely_enum(t)
                    };
                assert(j <= i);
            }
        } else {
            let e = run_end(d, j);
            crate::scanner::lemma_run_end(d, j);
            let t = ascii_text(d.subrange(j, e));
            lemma_enum_tokens_runs(d, e);
            let rest = enum_tokens(d, e);
            assert forall|q: int| 0 <= q < enum_tokens(d, j).len() implies found_as_run(d, j, #[trigger] enum_tokens(d, j)[q]) by {
                let x = enum_tokens(d, j)[q];
                if e - j > 3 && e - j <= 64 && e < d.len() && d[e] == 0 && likely_enum(t) && q == 0 {
                    assert(x == t);
                    assert(t.len() == e - j);
                    assert(d.subrange(j, j + t.len()) == d.subrange(j, e));
                } else {
                    let q2 = if e - j > 3 && e - j <= 64 && e < d.len() && d[e] == 0 && likely_enum(t) {
                        q - 1
                    } else {
                        q
                    };
                    assert(x == rest[q2]);
                    assert(found_as_run(d, e, x));
                    let i = choose|i: int|
                        #![trigger d.subrange(i, i + x.len())]
                        {
                            &&& e <= i
                            &&& 0 <= i
                            &&& i + x.len() < d.len()
                            &&& (i == 0 || !upper_enum_class(d[i - 1]))
                            &&& forall|k: int| i <= k < i + x.len() ==> upper_enum_class(#[trigger] d[k])
                            &&& d[i + x.len()] == 0
                            &&& x == ascii_text(d.subrange(i, i + x.len()))
                            &&& 4 <= x.len() <= 64
                            &&& likely_enum(x)
                        };
                    assert(j <= i);
                }
            }
        }
    }
}

/// Every upper-case enumeration value the scan finds is a whole run of the
/// upper-case class of four to sixty-four bytes, not preceded by a byte of
/// that class, followed by a zero byte, that reads like an enumeration
/// value.
pub proof fn lemma_enum_values_are_runs(d: Seq<u8>)
    ensures
        forall|q: int| 0 <= q < enum_tokens(d, 0).len() ==> found_as_run(d, 0, #[trigger] enum_tokens(d, 0)[q]),
{
    lemma_enum_tokens_runs(d, 0);
}

/// A root is marked as found by the RTTI heuristic only when it is a base
/// in `Api::OneMe` whose name ends in `Attachment` or `Params` and that RTTI
/// lists with a subclass.
pub proof fn lemma_heuristic_roots_are_named_bases(
    packets: Seq<PacketEntry>,
    events: Seq<EventEntry>,
    h: Seq<(Seq<char>, Seq<Seq<char>>)>,
    log: Seq<(Seq<char>, EntryShape)>,
    roots: NameMap<RootSources>,
    k: Seq<char>,
)
    requires
        roots_outcome(packets, events, h, log, roots),
        roots.spec_get(k) matches Some(r) && r.rtti_heuristic,
    ensures
        has_prefix(k, "Api::OneMe::"@),
        has_suffix(k, "Attachment"@) || has_suffix(k, "Params"@),
        exists|i: int| 0 <= i < h.len() && (#[trigger] h[i]).0 == k && h[i].1.len() > 0,
{
}

/// A `mov` into a register from anything but a register leaves nothing
/// known about the destination, and changes nothing else the scan tracks.
pub proof fn lemma_mov_load_forgets(pe: &PeImage, rtti: &RttiEngine, cands: Seq<Seq<char>>, st: ScanState, i: InsnShape)
    requires
        i.mnemonic == "Mov"@,
        i.op0_kind == "Register"@,
        i.op1_kind != "Register"@,
    ensures
        scan_step(pe, rtti, cands, st, i).regs.get(i.op0_full_register) is None,
        forall|r: Seq<char>| r != i.op0_full_register ==> #[trigger] scan_step(pe, rtti, cands, st, i).regs.get(r)
            == st.regs.get(r),
        scan_step(pe, rtti, cands, st, i).constructed == st.constructed,
{
    reveal_strlit("Mov");
    reveal_strlit("Lea");
    lemma_texts_differ("Mov"@, "Lea"@, 0);
    let r2 = scan_step(pe, rtti, cands, st, i).regs;
    assert forall|r: Seq<char>| r != i.op0_full_register implies #[trigger] r2.get(r) == st.regs.get(r) by {}
}

/// Storing a register that holds a variant's vtable into an object records
/// that the variant is constructed, and the object's base register then
/// holds the constructed variant.
pub proof fn lemma_vtable_store_constructs(
    pe: &PeImage,
    rtti: &RttiEngine,
    cands: Seq<Seq<char>>,
    st: ScanState,
    i: InsnShape,
    n: Seq<char>,
)
    requires
        i.mnemonic == "Mov"@,
        i.op0_kind == "Memory"@,
        i.op1_kind == "Register"@,
        st.regs.get(i.op1_full_register) == Some(RegShape::VariantVtable(n)),
        i.memory_base != "None"@,
        i.memory_base != "RIP"@,
        i.memory_base_full != "None"@,
        i.memory_base_full != "RIP"@,
    ensures
        scan_step(pe, rtti, cands, st, i).constructed == st.constructed.insert(n),
        scan_step(pe, rtti, cands, st, i).regs.get(i.memory_base_full) == Some(RegShape::ConstructedVariant(n)),
{
    reveal_strlit("Mov");
    reveal_strlit("Lea");
    reveal_strlit("Memory");
    reveal_strlit("Register");
    lemma_texts_differ("Mov"@, "Lea"@, 0);
    lemma_texts_differ("Register"@, "Memory"@, 0);
}

/// A call that passes a constructed variant's object in `RCX`, the string
/// `_type` in `RDX` and a SCREAM_CASE string in `R8` (and nothing in `R9`)
/// assigns that string to that variant.
pub proof fn lemma_call_assigns_value(
    pe: &PeImage,
    rtti: &RttiEngine,
    cands: Seq<Seq<char>>,
    st: ScanState,
    i: InsnShape,
    c: Seq<char>,
    v: Seq<char>,
)
    requires
        i.mnemonic == "Call"@,
        st.regs.get("RCX"@) == Some(RegShape::ConstructedVariant(c)),
        st.regs.get("RDX"@) == Some(RegShape::StringLiteral("_type"@)),
        st.regs.get("R8"@) == Some(RegShape::StringLiteral(v)),
        st.regs.get("R9"@) is None,
        scream_case(v),
    ensures
        scan_step(pe, rtti, cands, st, i).direct.contains_key(c),
        scan_step(pe, rtti, cands, st, i).direct[c].contains(v),
        scan_step(pe, rtti, cands, st, i).assigns.contains(v),
{
    reveal_strlit("Call");
    reveal_strlit("Lea");
    reveal_strlit("Mov");
    reveal_strlit("_type");
    lemma_texts_differ("Call"@, "Lea"@, 0);
    lemma_texts_differ("Call"@, "Mov"@, 0);
    let regs = st.regs;
    let ar = argument_registers();
    let lm = ar.map_values(|r: Seq<char>| literal_in(regs, r));
    assert(lm =~= seq![None, Some("_type"@), Some(v), None]);
    let l3 = seq![None, Some("_type"@), Some(v)];
    let l2 = seq![None, Some("_type"@)];
    let l1 = seq![None::<Seq<char>>];
    assert(lm.drop_last() =~= l3);
    assert(l3.drop_last() =~= l2);
    assert(l2.drop_last() =~= l1);
    assert(l1.drop_last() =~= Seq::<Option<Seq<char>>>::empty());
    assert(present(Seq::<Option<Seq<char>>>::empty()) =~= Seq::<Seq<char>>::empty());
    assert(present(l1) =~= Seq::<Seq<char>>::empty());
    assert(present(l2) =~= seq!["_type"@]);
    assert(present(l3) =~= seq!["_type"@, v]);
    assert(literal_args(regs) =~= seq!["_type"@, v]);
    assert(literal_args(regs).contains("_type"@)) by {
        assert(literal_args(regs)[0] == "_type"@);
    }
    assert(!scream_case("_type"@));
    let lits = seq!["_type"@, v];
    let pred = |x: Seq<char>| scream_case(x);
    reveal(Seq::filter);
    assert(lits.drop_last() =~= seq!["_type"@]);
    assert(seq!["_type"@].drop_last() =~= Seq::<Seq<char>>::empty());
    assert(!pred("_type"@));
    assert(pred(v));
    assert(Seq::<Seq<char>>::empty().filter(pred) =~= Seq::<Seq<char>>::empty());
    assert(seq!["_type"@].last() == "_type"@);
    assert(seq!["_type"@].filter(pred) =~= Seq::<Seq<char>>::empty());
    assert(lits.filter(pred) =~= seq![v]);
    assert(scream_values(lits) =~= seq![v]);
    assert(only_value(seq![v]) == Some(v));
    let cm = ar.map_values(|r: Seq<char>| constructed_in(regs, r));
    assert(cm =~= seq![Some(c), None, None, None]);
    let c3 = seq![Some(c), None, None];
    let c2 = seq![Some(c), None];
    let c1 = seq![Some(c)];
    assert(cm.drop_last() =~= c3);
    assert(c3.drop_last() =~= c2);
    assert(c2.drop_last() =~= c1);
    assert(c1.drop_last() =~= Seq::<Option<Seq<char>>>::empty());
    assert(present(Seq::<Option<Seq<char>>>::empty()) =~= Seq::<Seq<char>>::empty());
    assert(present(c1) =~= seq![c]);
    assert(present(c2) =~= seq![c]);
    assert(present(c3) =~= seq![c]);
    assert(constructed_args(regs) =~= seq![c]);
    assert(only_value(seq![c]) == Some(c));
}

/// A `mov` into memory changes no register but the store's base register,
/// assigns nothing, and can mark as constructed only the variant whose
/// vtable the stored register holds.
pub proof fn lemma_mov_store_frame(pe: &PeImage, rtti: &RttiEngine, cands: Seq<Seq<char>>, st: ScanState, i: InsnShape)
    requires
        i.mnemonic == "Mov"@,
        i.op0_kind == "Memory"@,
    ensures
        forall|r: Seq<char>| r != i.memory_base_full ==> #[trigger] scan_step(pe, rtti, cands, st, i).regs.get(r)
            == st.regs.get(r),
        scan_step(pe, rtti, cands, st, i).assigns == st.assigns,
        scan_step(pe, rtti, cands, st, i).direct == st.direct,
        scan_step(pe, rtti, cands, st, i).ambiguous == st.ambiguous,
        forall|n: Seq<char>| #[trigger] scan_step(pe, rtti, cands, st, i).constructed.contains(n) ==> st.constructed.contains(n)
            || (i.op1_kind == "Register"@ && st.regs.get(i.op1_full_register) == Some(RegShape::VariantVtable(n))),
{
    reveal_strlit("Mov");
    reveal_strlit("Lea");
    reveal_strlit("Memory");
    reveal_strlit("Register");
    lemma_texts_differ("Mov"@, "Lea"@, 0);
    lemma_texts_differ("Register"@, "Memory"@, 0);
    let r2 = scan_step(pe, rtti, cands, st, i).regs;
    assert forall|r: Seq<char>| r != i.memory_base_full implies #[trigger] r2.get(r) == st.regs.get(r) by {}
}

/// Moving an immediate into a register of an initializer marks the register
/// as holding a constant, and changes no other register.
pub proof fn lemma_extract_mov_immediate(pe: &PeImage, rtti: &RttiEngine, frva: u32, st: ExtractState, i: InsnShape)
    requires
        i.mnemonic == "Mov"@,
        i.op0_kind == "Register"@,
        i.op1_kind == "Immediate32"@ || i.op1_kind == "Immediate8"@,
    ensures
        extract_step(pe, rtti, frva, st, i).regs.get(i.op0_full_register) == Some(ExReg::Imm),
        forall|r: Seq<char>| r != i.op0_full_register ==> #[trigger] extract_step(pe, rtti, frva, st, i).regs.get(r)
            == st.regs.get(r),
        extract_step(pe, rtti, frva, st, i).pending == st.pending,
        i.op0_full_register != "R9"@ ==> extract_step(pe, rtti, frva, st, i).r9 == st.r9,
{
    reveal_strlit("Mov");
    reveal_strlit("Lea");
    reveal_strlit("Memory");
    reveal_strlit("Register");
    reveal_strlit("Immediate32");
    reveal_strlit("Immediate8");
    lemma_texts_differ("Mov"@, "Lea"@, 0);
    lemma_texts_differ("Register"@, "Memory"@, 0);
    lemma_texts_differ("Immediate32"@, "Register"@, 0);
    lemma_texts_differ("Immediate8"@, "Register"@, 0);
    let r2 = extract_step(pe, rtti, frva, st, i).regs;
    assert forall|r: Seq<char>| r != i.op0_full_register implies #[trigger] r2.get(r) == st.regs.get(r) by {}
}

/// Moving anything but a register or an immediate into a register of an
/// initializer leaves nothing known about it.
pub proof fn lemma_extract_mov_load_forgets(pe: &PeImage, rtti: &RttiEngine, frva: u32, st: ExtractState, i: InsnShape)
    requires
        i.mnemonic == "Mov"@,
        i.op0_kind == "Register"@,
        i.op1_kind != "Register"@,
        i.op1_kind != "Immediate32"@,
        i.op1_kind != "Immediate8"@,
    ensures
        extract_step(pe, rtti, frva, st, i).regs.get(i.op0_full_register) is None,
        forall|r: Seq<char>| r != i.op0_full_register ==> #[trigger] extract_step(pe, rtti, frva, st, i).regs.get(r)
            == st.regs.get(r),
        extract_step(pe, rtti, frva, st, i).pending == st.pending,
        extract_step(pe, rtti, frva, st, i).r9 == st.r9,
{
    reveal_strlit("Mov");
    reveal_strlit("Lea");
    reveal_strlit("Memory");
    reveal_strlit("Register");
    lemma_texts_differ("Mov"@, "Lea"@, 0);
    lemma_texts_differ("Register"@, "Memory"@, 0);
    let r2 = extract_step(pe, rtti, frva, st, i).regs;
    assert forall|r: Seq<char>| r != i.op0_full_register implies #[trigger] r2.get(r) == st.regs.get(r) by {}
}

/// Storing a register that holds a member registration's vtable, soon after
/// a field name, gives the pending field that vtable's type and owner.
pub proof fn lemma_member_vtable_store_types(
    pe: &PeImage,
    rtti: &RttiEngine,
    frva: u32,
    st: ExtractState,
    i: InsnShape,
    pf: PendingShape,
    t: Seq<char>,
    o: Option<Seq<char>>,
)
    requires
        i.mnemonic == "Mov"@,
        i.op0_kind == "Memory"@,
        i.memory_base != "RIP"@,
        i.memory_base != "None"@,
        i.op1_kind == "Register"@,
        crate::decode::gpr64_name(i.op1_register),
        st.regs.get(i.op1_full_register) == Some(ExReg::MemberVtable(t, o)),
        st.pending == Some(pf),
        st.idx + 1 - pf.idx <= 35,
    ensures
        extract_step(pe, rtti, frva, st, i).pending matches Some(p) && p.name == pf.name && p.field_type_name == Some(t)
            && p.owner == o && p.required == pf.required,
{
    reveal_strlit("Mov");
    reveal_strlit("Lea");
    reveal_strlit("Register");
    reveal_strlit("Immediate32");
    reveal_strlit("Immediate8");
    lemma_texts_differ("Mov"@, "Lea"@, 0);
    lemma_texts_differ("Register"@, "Immediate32"@, 0);
    lemma_texts_differ("Register"@, "Immediate8"@, 0);
}

} // verus!
