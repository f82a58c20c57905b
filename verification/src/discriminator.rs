//! Discriminator values of polymorphic variants, read from the converter
//! factories that construct them.
use vstd::prelude::*;
use crate::decode::{Insn, InsnShape, decode_all, decoded, insns_view, is_rip_lea, rip_lea, rva_of, target_rva};
use crate::names::{NameMap, NameSet, sorted_names, strictly_sorted, lemma_sorted_names};
use crate::pe::{PeImage, RuntimeFunction, cstring_at};
use crate::rtti::RttiEngine;
use crate::text::{
    all_digits, append, append_str, chars_of, hex_text, is_digit, join, join_seqs, owned, str_eq,
    string_of,
};

verus! {

/// The longest function taken for a converter factory.
pub const MAX_FACTORY_FUNCTION_LEN: u32 = 2048;

/// The general-purpose registers a call may change under the Microsoft x64
/// calling convention.
pub const X64_VOLATILE_REGISTERS: [&'static str; 7] = ["RAX", "RCX", "RDX", "R8", "R9", "R10", "R11"];

/// What the discriminator scan reports: the evidence it used and what it
/// could not establish.
#[derive(Debug, Clone, PartialEq, Eq)]
pub struct DiscriminatorScanDiagnostics {
    pub evidence: Vec<DiscriminatorValueEvidence>,
    pub misses: Vec<DiscriminatorExtractionMiss>,
}

impl DiscriminatorScanDiagnostics {
    /// Diagnostics with nothing to report.
    pub fn new() -> (r: DiscriminatorScanDiagnostics)
        ensures
            r.evidence@.len() == 0,
            r.misses@.len() == 0,
    {
        DiscriminatorScanDiagnostics { evidence: Vec::new(), misses: Vec::new() }
    }
}

/// A discriminator value found for a variant, with the factory function
/// that showed it (as `0x`-prefixed hexadecimal).
#[derive(Debug, Clone, PartialEq, Eq)]
pub struct DiscriminatorValueEvidence {
    pub variant_name: String,
    pub value: String,
    pub function_rva: String,
}

/// Why a discriminator value could not be established.
#[derive(Debug, Clone, PartialEq, Eq)]
pub struct DiscriminatorExtractionMiss {
    pub variant_name: Option<String>,
    pub function_rva: Option<String>,
    pub reason: String,
    pub constructed_variants: Vec<String>,
    pub type_assignments: Vec<String>,
}

/// The abstract value of a [`DiscriminatorExtractionMiss`].
pub struct MissShape {
    pub variant_name: Option<Seq<char>>,
    pub function_rva: Option<Seq<char>>,
    pub reason: Seq<char>,
    pub constructed_variants: Seq<Seq<char>>,
    pub type_assignments: Seq<Seq<char>>,
}

impl View for DiscriminatorExtractionMiss {
    type V = MissShape;

    open spec fn view(&self) -> MissShape {
        MissShape {
            variant_name: self.variant_name.deep_view(),
            function_rva: self.function_rva.deep_view(),
            reason: self.reason@,
            constructed_variants: self.constructed_variants.deep_view(),
            type_assignments: self.type_assignments.deep_view(),
        }
    }
}

/// The views of a list of misses.
pub open spec fn misses_view(s: Seq<DiscriminatorExtractionMiss>) -> Seq<MissShape> {
    s.map_values(|m: DiscriminatorExtractionMiss| m@)
}

/// A discriminator value seen assigned to a constructed variant.
#[derive(Debug, Clone, PartialEq, Eq)]
pub struct DiscriminatorEvidence {
    pub variant_name: String,
    pub value: String,
    pub function_rva: u32,
}

/// The abstract value of a [`DiscriminatorEvidence`].
pub struct EvidenceShape {
    pub variant_name: Seq<char>,
    pub value: Seq<char>,
    pub function_rva: u32,
}

impl View for DiscriminatorEvidence {
    type V = EvidenceShape;

    open spec fn view(&self) -> EvidenceShape {
        EvidenceShape { variant_name: self.variant_name@, value: self.value@, function_rva: self.function_rva }
    }
}

/// The views of a list of evidence.
pub open spec fn evidence_view(s: Seq<DiscriminatorEvidence>) -> Seq<EvidenceShape> {
    s.map_values(|e: DiscriminatorEvidence| e@)
}

/// What one factory function showed: the candidate variants it constructs,
/// the `_type` values it assigns, the values assigned to each constructed
/// variant directly, and whether some `_type` assignment was ambiguous.
#[derive(Debug, Clone)]
pub struct FactoryDiscriminatorFacts {
    pub function_rva: u32,
    pub constructed_variants: NameSet,
    pub type_assignments: NameSet,
    pub direct_type_assignments: NameMap<NameSet>,
    pub ambiguous_type_assignment: bool,
}

impl FactoryDiscriminatorFacts {
    /// The sets and the map are well formed.
    pub open spec fn wf(&self) -> bool {
        &&& self.constructed_variants.wf()
        &&& self.type_assignments.wf()
        &&& self.direct_type_assignments.wf()
        &&& forall|i: int| 0 <= i < self.direct_type_assignments.vals().len() ==> (
        #[trigger] self.direct_type_assignments.vals()[i]).wf()
    }

    /// Facts of function `function_rva` with nothing observed.
    pub fn new(function_rva: u32) -> (r: FactoryDiscriminatorFacts)
        ensures
            r.wf(),
            r.function_rva == function_rva,
            r.constructed_variants@.len() == 0,
            r.type_assignments@.len() == 0,
            r.direct_type_assignments.keys().len() == 0,
            !r.ambiguous_type_assignment,
    {
        let r = FactoryDiscriminatorFacts {
            function_rva,
            constructed_variants: NameSet::new(),
            type_assignments: NameSet::new(),
            direct_type_assignments: NameMap::new(),
            ambiguous_type_assignment: false,
        };
        assert(r.direct_type_assignments.vals().len() == 0);
        r
    }
}

// ---------------------------------------------------------------------------
// SCREAM_CASE values
// ---------------------------------------------------------------------------

/// `c` may appear in a SCREAM_CASE value: `A`-`Z`, `0`-`9` or `_`.
pub open spec fn scream_char(c: char) -> bool {
    ('A' <= c && c <= 'Z') || is_digit(c) || c == '_'
}

/// Every character of `s` may appear in a SCREAM_CASE value.
pub open spec fn all_scream_chars(s: Seq<char>) -> bool {
    forall|i: int| 0 <= i < s.len() ==> scream_char(#[trigger] s[i])
}

/// `s` is a SCREAM_CASE discriminator value: one to sixty-four characters
/// of `A`-`Z`, `0`-`9` and `_`, starting with a capital letter, and not all
/// digits.
pub open spec fn scream_case(s: Seq<char>) -> bool {
    0 < s.len() && s.len() <= 64 && 'A' <= s[0] && s[0] <= 'Z' && !all_digits(s) && all_scream_chars(s)
}

/// Whether `value` is a SCREAM_CASE discriminator value (see [`scream_case`]).
pub fn is_scream_case_discriminator_value(value: &str) -> (r: bool)
    ensures
        r == scream_case(value@),
{
    let cs = chars_of(value);
    if cs.len() == 0 || cs.len() > 64 {
        return false;
    }
    if !('A' <= cs[0] && cs[0] <= 'Z') {
        return false;
    }
    assert(!all_digits(value@)) by {
        assert(!is_digit(value@[0]));
    }
    let mut i: usize = 0;
    while i < cs.len()
        invariant
            i <= cs.len(),
            cs@ == value@,
            forall|k: int| 0 <= k < i ==> scream_char(#[trigger] value@[k]),
        decreases cs.len() - i,
    {
        let c = cs[i];
        if !(('A' <= c && c <= 'Z') || ('0' <= c && c <= '9') || c == '_') {
            assert(!scream_char(value@[i as int]));
            return false;
        }
        i = i + 1;
    }
    true
}

// ---------------------------------------------------------------------------
// From facts to values
// ---------------------------------------------------------------------------

/// The evidence from the first `n` direct assignments of a fact: each
/// variant assigned exactly one value, when that value is SCREAM_CASE.
pub open spec fn direct_evidence(keys: Seq<Seq<char>>, vals: Seq<NameSet>, rva: u32, n: int) -> Seq<
    EvidenceShape,
>
    decreases n,
{
    if n <= 0 {
        seq![]
    } else {
        let rest = direct_evidence(keys, vals, rva, n - 1);
        let vs = vals[n - 1]@;
        if vs.len() == 1 && scream_case(vs[0]) {
            rest.push(EvidenceShape { variant_name: keys[n - 1], value: vs[0], function_rva: rva })
        } else {
            rest
        }
    }
}

/// The evidence one fact gives: none when ambiguous, else its direct
/// assignments (see [`direct_evidence`]).
pub open spec fn fact_evidence(f: FactoryDiscriminatorFacts) -> Seq<EvidenceShape> {
    if f.ambiguous_type_assignment {
        seq![]
    } else {
        direct_evidence(
            f.direct_type_assignments.keys(),
            f.direct_type_assignments.vals(),
            f.function_rva,
            f.direct_type_assignments.keys().len() as int,
        )
    }
}

/// The evidence of a list of facts, in order.
pub open spec fn facts_evidence(facts: Seq<FactoryDiscriminatorFacts>) -> Seq<EvidenceShape>
    decreases facts.len(),
{
    if facts.len() == 0 {
        seq![]
    } else {
        facts_evidence(facts.drop_last()) + fact_evidence(facts.last())
    }
}

/// The evidence the facts give (see [`facts_evidence`]).
pub fn evidence_from_factory_facts(facts: &Vec<FactoryDiscriminatorFacts>) -> (r: Vec<DiscriminatorEvidence>)
    requires
        forall|i: int| 0 <= i < facts.len() ==> (#[trigger] facts[i]).wf(),
    ensures
        evidence_view(r@) == facts_evidence(facts@),
{
    let mut out: Vec<DiscriminatorEvidence> = Vec::new();
    let mut i: usize = 0;
    assert(facts@.take(0) =~= Seq::<FactoryDiscriminatorFacts>::empty());
    assert(evidence_view(out@) =~= Seq::<EvidenceShape>::empty());
    while i < facts.len()
        invariant
            i <= facts.len(),
            forall|k: int| 0 <= k < facts.len() ==> (#[trigger] facts[k]).wf(),
            evidence_view(out@) == facts_evidence(facts@.take(i as int)),
        decreases facts.len() - i,
    {
        let f = &facts[i];
        assert(facts@.take(i + 1).drop_last() =~= facts@.take(i as int));
        assert(facts@.take(i + 1).last() == *f);
        let ghost base = evidence_view(out@);
        if !f.ambiguous_type_assignment {
            let d = &f.direct_type_assignments;
            let n = d.len();
            let mut j: usize = 0;
            assert(base + direct_evidence(d.keys(), d.vals(), f.function_rva, 0) =~= base);
            while j < n
                invariant
                    j <= n,
                    n == d.keys().len(),
                    f.wf(),
                    *d == f.direct_type_assignments,
                    evidence_view(out@) == base + direct_evidence(d.keys(), d.vals(), f.function_rva, j as int),
                decreases n - j,
            {
                let vs = d.value_at(j);
                assert(vs.wf());
                if vs.len() == 1 {
                    let v = vs.get(0);
                    if is_scream_case_discriminator_value(v.as_str()) {
                        let ghost prev = out@;
                        out.push(DiscriminatorEvidence {
                            variant_name: d.key_at(j).clone(),
                            value: v.clone(),
                            function_rva: f.function_rva,
                        });
                        assert(evidence_view(out@) =~= evidence_view(prev).push(out@.last()@));
                    }
                }
                j = j + 1;
            }
        } else {
            assert(base + Seq::<EvidenceShape>::empty() =~= base);
        }
        i = i + 1;
    }
    assert(facts@.take(facts.len() as int) =~= facts@);
    out
}

/// The SCREAM_CASE values the evidence gives for `variant`.
pub open spec fn evidence_values(ev: Seq<EvidenceShape>, variant: Seq<char>) -> Set<Seq<char>> {
    Set::new(
        |v: Seq<char>|
            exists|i: int|
                0 <= i < ev.len() && (#[trigger] ev[i]).variant_name == variant && ev[i].value == v
                    && scream_case(v),
    )
}

/// The value of `variant` when the evidence gives it exactly one.
pub open spec fn single_value(ev: Seq<EvidenceShape>, variant: Seq<char>) -> Option<Seq<char>> {
    let s = sorted_names(evidence_values(ev, variant));
    if s.len() == 1 {
        Some(s[0])
    } else {
        None
    }
}

/// The view of an optional string.
pub open spec fn opt_text(o: Option<String>) -> Option<Seq<char>> {
    match o {
        Some(s) => Some(s@),
        None => None,
    }
}

proof fn lemma_evidence_values_push(ev: Seq<EvidenceShape>, e: EvidenceShape, k: Seq<char>)
    ensures
        evidence_values(ev.push(e), k) == (if e.variant_name == k && scream_case(e.value) {
            evidence_values(ev, k).insert(e.value)
        } else {
            evidence_values(ev, k)
        }),
{
    let l = ev.push(e);
    assert forall|v: Seq<char>| evidence_values(l, k).contains(v) <==> (if e.variant_name == k && scream_case(
        e.value,
    ) {
        evidence_values(ev, k).insert(e.value)
    } else {
        evidence_values(ev, k)
    }).contains(v) by {
        if evidence_values(l, k).contains(v) {
            let i = choose|i: int|
                0 <= i < l.len() && (#[trigger] l[i]).variant_name == k && l[i].value == v && scream_case(v);
            if i < ev.len() {
                assert(ev[i] == l[i]);
            }
        }
        if evidence_values(ev, k).contains(v) {
            let i = choose|i: int|
                0 <= i < ev.len() && (#[trigger] ev[i]).variant_name == k && ev[i].value == v && scream_case(v);
            assert(l[i] == ev[i]);
        }
        if e.variant_name == k && scream_case(e.value) && v == e.value {
            assert(l[ev.len() as int] == e);
        }
    }
    assert(evidence_values(l, k) =~= (if e.variant_name == k && scream_case(e.value) {
        evidence_values(ev, k).insert(e.value)
    } else {
        evidence_values(ev, k)
    }));
}

/// The discriminator value of each variant the evidence gives exactly one
/// SCREAM_CASE value.
pub fn values_from_evidence(evidence: &Vec<DiscriminatorEvidence>) -> (r: NameMap<String>)
    ensures
        r.wf(),
        forall|k: Seq<char>| #[trigger] opt_text(r.spec_get(k)) == single_value(evidence_view(evidence@), k),
{
    let ghost ev = evidence_view(evidence@);
    let mut groups: NameMap<NameSet> = NameMap::new();
    let mut i: usize = 0;
    proof {
        assert forall|k: Seq<char>| #[trigger] groups.spec_get(k) is None by {
            groups.lemma_domain(k);
        }
        assert forall|k: Seq<char>| evidence_values(ev.take(0), k) =~= Set::<Seq<char>>::empty() by {}
    }
    while i < evidence.len()
        invariant
            i <= evidence.len(),
            ev == evidence_view(evidence@),
            groups.wf(),
            forall|k: Seq<char>| #[trigger] groups.spec_get(k) matches Some(s) ==> s.wf() && s@.to_set()
                == evidence_values(ev.take(i as int), k),
            forall|k: Seq<char>| #[trigger] groups.spec_get(k) is None ==> evidence_values(ev.take(i as int), k)
                == Set::<Seq<char>>::empty(),
        decreases evidence.len() - i,
    {
        let e = &evidence[i];
        assert(ev.take(i + 1) =~= ev.take(i as int).push(e@));
        proof {
            assert forall|k: Seq<char>| true implies evidence_values(ev.take(i + 1), k) == (if e@.variant_name == k
                && scream_case(e@.value) {
                evidence_values(ev.take(i as int), k).insert(e@.value)
            } else {
                evidence_values(ev.take(i as int), k)
            }) by {
                lemma_evidence_values_push(ev.take(i as int), e@, k);
            }
        }
        if is_scream_case_discriminator_value(e.value.as_str()) {
            let mut set = match groups.get(e.variant_name.as_str()) {
                Some(s) => s.clone_set(),
                None => NameSet::new(),
            };
            let ghost before = set@.to_set();
            assert(before == evidence_values(ev.take(i as int), e@.variant_name));
            set.insert(e.value.clone());
            let ghost g0 = groups;
            groups.set(e.variant_name.clone(), set);
            assert forall|k: Seq<char>| #[trigger] groups.spec_get(k) is Some implies groups.spec_get(k)->0.wf()
                && groups.spec_get(k)->0@.to_set() == evidence_values(ev.take(i + 1), k) by {
                if k != e@.variant_name {
                    assert(groups.spec_get(k) == g0.spec_get(k));
                }
            }
            assert forall|k: Seq<char>| #[trigger] groups.spec_get(k) is None implies evidence_values(
                ev.take(i + 1),
                k,
            ) == Set::<Seq<char>>::empty() by {
                if k != e@.variant_name {
                    assert(groups.spec_get(k) == g0.spec_get(k));
                }
            }
        }
        i = i + 1;
    }
    assert(ev.take(evidence.len() as int) =~= ev);
    // Keep the variants with exactly one value.
    let mut r: NameMap<String> = NameMap::new();
    let n = groups.len();
    let mut j: usize = 0;
    proof {
        assert forall|k: Seq<char>| #[trigger] r.spec_get(k) is None by {
            r.lemma_domain(k);
        }
    }
    while j < n
        invariant
            j <= n,
            n == groups.keys().len(),
            groups.wf(),
            r.wf(),
            ev == evidence_view(evidence@),
            forall|k: Seq<char>| #[trigger] groups.spec_get(k) matches Some(s) ==> s.wf() && s@.to_set()
                == evidence_values(ev, k),
            forall|k: Seq<char>| #[trigger] groups.spec_get(k) is None ==> evidence_values(ev, k) == Set::<
                Seq<char>,
            >::empty(),
            forall|k: Seq<char>| #[trigger] opt_text(r.spec_get(k)) == (if groups.keys().take(j as int).contains(k) {
                single_value(ev, k)
            } else {
                None
            }),
        decreases n - j,
    {
        let key = groups.key_at(j);
        let set = groups.value_at(j);
        let ghost kv = key@;
        proof {
            groups.lemma_get_at(j as int);
            lemma_sorted_names(set@);
        }
        let ghost r0 = r;
        let single = set.len() == 1;
        if single {
            r.set(key.clone(), set.get(0).clone());
        }
        assert forall|k: Seq<char>| #[trigger] opt_text(r.spec_get(k)) == (if groups.keys().take(j + 1).contains(k) {
            single_value(ev, k)
        } else {
            None
        }) by {
            let t0 = groups.keys().take(j as int);
            let t1 = groups.keys().take(j + 1);
            assert(t1 =~= t0.push(kv));
            assert(t1.contains(k) <==> (t0.contains(k) || k == kv)) by {
                if t1.contains(k) {
                    let q = choose|q: int| 0 <= q < t1.len() && t1[q] == k;
                    if q < j {
                        assert(t0[q] == k);
                    }
                }
                if t0.contains(k) {
                    let q = choose|q: int| 0 <= q < t0.len() && t0[q] == k;
                    assert(t1[q] == k);
                }
                if k == kv {
                    assert(t1[j as int] == k);
                }
            }
            if k != kv {
                if single {
                    assert(r.spec_get(k) == r0.spec_get(k));
                }
            } else {
                assert(!t0.contains(kv)) by {
                    if t0.contains(kv) {
                        let q = choose|q: int| 0 <= q < t0.len() && t0[q] == kv;
                        crate::names::lemma_sorted_distinct(groups.keys(), q, j as int);
                    }
                }
                assert(sorted_names(evidence_values(ev, k)) == set@);
            }
        }
        j = j + 1;
    }
    assert forall|k: Seq<char>| #[trigger] opt_text(r.spec_get(k)) == single_value(ev, k) by {
        assert(groups.keys().take(n as int) =~= groups.keys());
        groups.lemma_domain(k);
        if !groups.keys().contains(k) {
            assert(evidence_values(ev, k) =~= Set::<Seq<char>>::empty());
            assert(Seq::<Seq<char>>::empty().to_set() =~= Set::<Seq<char>>::empty());
            lemma_sorted_names(Seq::<Seq<char>>::empty());
        }
    }
    r
}

// ---------------------------------------------------------------------------
// Diagnostics
// ---------------------------------------------------------------------------

/// Why a fact yields no discriminator value, if it does not.
pub open spec fn miss_reason(f: FactoryDiscriminatorFacts) -> Option<Seq<char>> {
    let c = f.constructed_variants@;
    let t = f.type_assignments@;
    if f.ambiguous_type_assignment {
        Some("ambiguous _type assignment"@)
    } else if c.len() == 0 {
        Some("no candidate variant construction observed"@)
    } else if c.len() > 1 {
        Some("multiple candidate variant constructions observed"@)
    } else if t.len() == 0 {
        Some("no _type assignment observed"@)
    } else if t.len() > 1 {
        Some("multiple _type assignment values observed"@)
    } else if !scream_case(t[0]) {
        Some("_type value '"@ + t[0] + "' is not SCREAM_CASE"@)
    } else {
        None
    }
}

/// Why the fact yields no discriminator value (see [`miss_reason`]).
pub fn factory_fact_miss_reason(fact: &FactoryDiscriminatorFacts) -> (r: Option<String>)
    requires
        fact.wf(),
    ensures
        opt_text(r) == miss_reason(*fact),
{
    if fact.ambiguous_type_assignment {
        return Some(owned("ambiguous _type assignment"));
    }
    if fact.constructed_variants.len() == 0 {
        return Some(owned("no candidate variant construction observed"));
    }
    if fact.constructed_variants.len() > 1 {
        return Some(owned("multiple candidate variant constructions observed"));
    }
    if fact.type_assignments.len() == 0 {
        return Some(owned("no _type assignment observed"));
    }
    if fact.type_assignments.len() > 1 {
        return Some(owned("multiple _type assignment values observed"));
    }
    let value = fact.type_assignments.get(0);
    if !is_scream_case_discriminator_value(value.as_str()) {
        let mut m = chars_of("_type value '");
        append_str(&mut m, value.as_str());
        append_str(&mut m, "' is not SCREAM_CASE");
        return Some(string_of(&m));
    }
    None
}

/// The miss a fact reports, if any: its reason, the variant when it
/// constructs exactly one, its function, and what it observed.
pub open spec fn fact_miss(f: FactoryDiscriminatorFacts) -> Option<MissShape> {
    let c = f.constructed_variants@;
    match miss_reason(f) {
        None => None,
        Some(reason) => Some(MissShape {
            variant_name: if c.len() == 1 {
                Some(c[0])
            } else {
                None
            },
            function_rva: Some("0x"@ + hex_text(f.function_rva as nat)),
            reason: reason,
            constructed_variants: c,
            type_assignments: f.type_assignments@,
        }),
    }
}

/// The miss a fact reports (see [`fact_miss`]).
pub fn miss_from_factory_fact(fact: &FactoryDiscriminatorFacts) -> (r: Option<DiscriminatorExtractionMiss>)
    requires
        fact.wf(),
    ensures
        match r {
            Some(m) => fact_miss(*fact) == Some(m@),
            None => fact_miss(*fact) is None,
        },
{
    let reason = match factory_fact_miss_reason(fact) {
        Some(x) => x,
        None => {
            return None;
        },
    };
    let variant_name = if fact.constructed_variants.len() == 1 {
        Some(fact.constructed_variants.get(0).clone())
    } else {
        None
    };
    Some(DiscriminatorExtractionMiss {
        variant_name,
        function_rva: Some(crate::text::hex_string(fact.function_rva as u64)),
        reason,
        constructed_variants: fact.constructed_variants.to_vec(),
        type_assignments: fact.type_assignments.to_vec(),
    })
}

/// Every value the evidence gives for `variant`.
pub open spec fn all_evidence_values(ev: Seq<EvidenceShape>, variant: Seq<char>) -> Set<Seq<char>> {
    Set::new(
        |v: Seq<char>|
            exists|i: int| 0 <= i < ev.len() && (#[trigger] ev[i]).variant_name == variant && ev[i].value == v,
    )
}

/// The miss reported for a candidate variant left without a value: its
/// evidence values, and whether they conflict.
pub open spec fn variant_miss(ev: Seq<EvidenceShape>, v: Seq<char>) -> MissShape {
    let vals = sorted_names(all_evidence_values(ev, v));
    MissShape {
        variant_name: Some(v),
        function_rva: None,
        reason: if vals.len() > 1 {
            "conflicting discriminator values: "@ + join_seqs(vals, ", "@)
        } else {
            "no high-confidence discriminator value found"@
        },
        constructed_variants: seq![v],
        type_assignments: vals,
    }
}

/// The misses of the candidate variants (in ascending order) that got no
/// value.
pub open spec fn variant_misses(cands: Seq<Seq<char>>, ev: Seq<EvidenceShape>, values: NameMap<String>) -> Seq<
    MissShape,
>
    decreases cands.len(),
{
    if cands.len() == 0 {
        seq![]
    } else {
        let rest = variant_misses(cands.drop_last(), ev, values);
        if values.spec_get(cands.last()) is Some {
            rest
        } else {
            rest.push(variant_miss(ev, cands.last()))
        }
    }
}

proof fn lemma_all_values_push(ev: Seq<EvidenceShape>, e: EvidenceShape, k: Seq<char>)
    ensures
        all_evidence_values(ev.push(e), k) == (if e.variant_name == k {
            all_evidence_values(ev, k).insert(e.value)
        } else {
            all_evidence_values(ev, k)
        }),
{
    let l = ev.push(e);
    assert forall|v: Seq<char>| all_evidence_values(l, k).contains(v) <==> (if e.variant_name == k {
        all_evidence_values(ev, k).insert(e.value)
    } else {
        all_evidence_values(ev, k)
    }).contains(v) by {
        if all_evidence_values(l, k).contains(v) {
            let i = choose|i: int| 0 <= i < l.len() && (#[trigger] l[i]).variant_name == k && l[i].value == v;
            if i < ev.len() {
                assert(ev[i] == l[i]);
            }
        }
        if all_evidence_values(ev, k).contains(v) {
            let i = choose|i: int| 0 <= i < ev.len() && (#[trigger] ev[i]).variant_name == k && ev[i].value == v;
            assert(l[i] == ev[i]);
        }
        if e.variant_name == k && v == e.value {
            assert(l[ev.len() as int] == e);
        }
    }
    assert(all_evidence_values(l, k) =~= (if e.variant_name == k {
        all_evidence_values(ev, k).insert(e.value)
    } else {
        all_evidence_values(ev, k)
    }));
}

fn group_all_values(evidence: &Vec<DiscriminatorEvidence>) -> (groups: NameMap<NameSet>)
    ensures
        groups.wf(),
        forall|k: Seq<char>| #[trigger] groups.spec_get(k) matches Some(s) ==> s.wf() && s@.to_set()
            == all_evidence_values(evidence_view(evidence@), k),
        forall|k: Seq<char>| #[trigger] groups.spec_get(k) is None ==> all_evidence_values(
            evidence_view(evidence@),
            k,
        ) == Set::<Seq<char>>::empty(),
{
    let ghost ev = evidence_view(evidence@);
    let mut groups: NameMap<NameSet> = NameMap::new();
    let mut i: usize = 0;
    proof {
        assert forall|k: Seq<char>| #[trigger] groups.spec_get(k) is None by {
            groups.lemma_domain(k);
        }
        assert forall|k: Seq<char>| all_evidence_values(ev.take(0), k) =~= Set::<Seq<char>>::empty() by {}
    }
    while i < evidence.len()
        invariant
            i <= evidence.len(),
            ev == evidence_view(evidence@),
            groups.wf(),
            forall|k: Seq<char>| #[trigger] groups.spec_get(k) matches Some(s) ==> s.wf() && s@.to_set()
                == all_evidence_values(ev.take(i as int), k),
            forall|k: Seq<char>| #[trigger] groups.spec_get(k) is None ==> all_evidence_values(
                ev.take(i as int),
                k,
            ) == Set::<Seq<char>>::empty(),
        decreases evidence.len() - i,
    {
        let e = &evidence[i];
        assert(ev.take(i + 1) =~= ev.take(i as int).push(e@));
        proof {
            assert forall|k: Seq<char>| true implies all_evidence_values(ev.take(i + 1), k) == (if e@.variant_name
                == k {
                all_evidence_values(ev.take(i as int), k).insert(e@.value)
            } else {
                all_evidence_values(ev.take(i as int), k)
            }) by {
                lemma_all_values_push(ev.take(i as int), e@, k);
            }
        }
        let mut set = match groups.get(e.variant_name.as_str()) {
            Some(s) => s.clone_set(),
            None => NameSet::new(),
        };
        set.insert(e.value.clone());
        let ghost g0 = groups;
        groups.set(e.variant_name.clone(), set);
        assert forall|k: Seq<char>| #[trigger] groups.spec_get(k) is Some implies groups.spec_get(k)->0.wf()
            && groups.spec_get(k)->0@.to_set() == all_evidence_values(ev.take(i + 1), k) by {
            if k != e@.variant_name {
                assert(groups.spec_get(k) == g0.spec_get(k));
            }
        }
        assert forall|k: Seq<char>| #[trigger] groups.spec_get(k) is None implies all_evidence_values(
            ev.take(i + 1),
            k,
        ) == Set::<Seq<char>>::empty() by {
            if k != e@.variant_name {
                assert(groups.spec_get(k) == g0.spec_get(k));
            }
        }
        i = i + 1;
    }
    assert(ev.take(evidence.len() as int) =~= ev);
    groups
}

/// The misses of the candidate variants that got no value (see
/// [`variant_misses`]).
pub fn variant_value_misses(
    candidate_variants: &NameSet,
    evidence: &Vec<DiscriminatorEvidence>,
    values: &NameMap<String>,
) -> (r: Vec<DiscriminatorExtractionMiss>)
    requires
        values.wf(),
    ensures
        misses_view(r@) == variant_misses(candidate_variants@, evidence_view(evidence@), *values),
{
    let ghost ev = evidence_view(evidence@);
    let groups = group_all_values(evidence);
    let ghost cands = candidate_variants@;
    let mut out: Vec<DiscriminatorExtractionMiss> = Vec::new();
    let mut i: usize = 0;
    assert(cands.take(0) =~= Seq::<Seq<char>>::empty());
    assert(misses_view(out@) =~= Seq::<MissShape>::empty());
    while i < candidate_variants.len()
        invariant
            i <= candidate_variants@.len(),
            cands == candidate_variants@,
            values.wf(),
            groups.wf(),
            ev == evidence_view(evidence@),
            forall|k: Seq<char>| #[trigger] groups.spec_get(k) matches Some(s) ==> s.wf() && s@.to_set()
                == all_evidence_values(ev, k),
            forall|k: Seq<char>| #[trigger] groups.spec_get(k) is None ==> all_evidence_values(ev, k) == Set::<
                Seq<char>,
            >::empty(),
            misses_view(out@) == variant_misses(cands.take(i as int), ev, *values),
        decreases candidate_variants@.len() - i,
    {
        let v = candidate_variants.get(i);
        assert(cands.take(i + 1).drop_last() =~= cands.take(i as int));
        assert(cands.take(i + 1).last() == v@);
        if !values.contains_key(v.as_str()) {
            proof {
                values.lemma_domain(v@);
            }
            let vals: Vec<String> = match groups.get(v.as_str()) {
                Some(s) => s.to_vec(),
                None => Vec::new(),
            };
            proof {
                lemma_sorted_names(vals.deep_view());
                if groups.spec_get(v@) is None {
                    assert(vals.deep_view().to_set() =~= Set::<Seq<char>>::empty());
                }
            }
            assert(vals.deep_view() == sorted_names(all_evidence_values(ev, v@)));
            let reason = if vals.len() > 1 {
                let mut parts: Vec<Vec<char>> = Vec::new();
                let mut k: usize = 0;
                while k < vals.len()
                    invariant
                        k <= vals.len(),
                        parts.len() == k,
                        parts.deep_view() == vals.deep_view().take(k as int),
                    decreases vals.len() - k,
                {
                    let ghost bvec = parts@;
                    parts.push(chars_of(vals[k].as_str()));
                    assert forall|z: int| 0 <= z < k + 1 implies parts.deep_view()[z] == vals.deep_view().take(
                        k + 1,
                    )[z] by {
                        if z < k {
                            assert(parts@[z] == bvec[z]);
                        } else {
                            assert(parts@[z].deep_view() =~= parts@[z]@);
                        }
                    }
                    assert(parts.deep_view() =~= vals.deep_view().take(k + 1));
                    k = k + 1;
                }
                assert(vals.deep_view().take(vals.len() as int) =~= vals.deep_view());
                let sep = chars_of(", ");
                let joined = join(&parts, &sep);
                let mut m = chars_of("conflicting discriminator values: ");
                append(&mut m, &joined);
                string_of(&m)
            } else {
                owned("no high-confidence discriminator value found")
            };
            let mut cv: Vec<String> = Vec::new();
            cv.push(v.clone());
            let miss = DiscriminatorExtractionMiss {
                variant_name: Some(v.clone()),
                function_rva: None,
                reason,
                constructed_variants: cv,
                type_assignments: vals,
            };
            assert(miss.constructed_variants.deep_view() =~= seq![v@]);
            assert(miss@ == variant_miss(ev, v@));
            let ghost prev = out@;
            out.push(miss);
            assert(misses_view(out@) =~= misses_view(prev).push(variant_miss(ev, v@)));
        } else {
            proof {
                values.lemma_domain(v@);
            }
        }
        i = i + 1;
    }
    assert(cands.take(cands.len() as int) =~= cands);
    out
}

/// The evidence entries reported for the evidence used.
pub open spec fn reported_evidence(ev: Seq<EvidenceShape>) -> Seq<(Seq<char>, Seq<char>, Seq<char>)> {
    ev.map_values(
        |e: EvidenceShape| (e.variant_name, e.value, "0x"@ + hex_text(e.function_rva as nat)),
    )
}

/// The misses of the facts, in order.
pub open spec fn facts_misses(facts: Seq<FactoryDiscriminatorFacts>) -> Seq<MissShape>
    decreases facts.len(),
{
    if facts.len() == 0 {
        seq![]
    } else {
        let rest = facts_misses(facts.drop_last());
        match fact_miss(facts.last()) {
            Some(m) => rest.push(m),
            None => rest,
        }
    }
}

/// The diagnostics of a scan: an entry for each piece of evidence, then the
/// misses of the facts and of the candidate variants left without a value.
pub fn diagnostics_from_scan(
    candidate_variants: &NameSet,
    facts: &Vec<FactoryDiscriminatorFacts>,
    evidence: &Vec<DiscriminatorEvidence>,
    values: &NameMap<String>,
) -> (r: DiscriminatorScanDiagnostics)
    requires
        values.wf(),
        forall|i: int| 0 <= i < facts.len() ==> (#[trigger] facts[i]).wf(),
    ensures
        r.evidence@.map_values(|e: DiscriminatorValueEvidence| (e.variant_name@, e.value@, e.function_rva@))
            == reported_evidence(evidence_view(evidence@)),
        misses_view(r.misses@) == facts_misses(facts@) + variant_misses(
            candidate_variants@,
            evidence_view(evidence@),
            *values,
        ),
{
    let mut entries: Vec<DiscriminatorValueEvidence> = Vec::new();
    let mut i: usize = 0;
    while i < evidence.len()
        invariant
            i <= evidence.len(),
            entries.len() == i,
            entries@.map_values(|e: DiscriminatorValueEvidence| (e.variant_name@, e.value@, e.function_rva@))
                == reported_evidence(evidence_view(evidence@)).take(i as int),
        decreases evidence.len() - i,
    {
        let e = &evidence[i];
        assert(evidence_view(evidence@)[i as int] == e@);
        entries.push(DiscriminatorValueEvidence {
            variant_name: e.variant_name.clone(),
            value: e.value.clone(),
            function_rva: crate::text::hex_string(e.function_rva as u64),
        });
        i = i + 1;
        assert(entries@.map_values(|e: DiscriminatorValueEvidence| (e.variant_name@, e.value@, e.function_rva@))
            =~= reported_evidence(evidence_view(evidence@)).take(i as int));
    }
    assert(reported_evidence(evidence_view(evidence@)).take(evidence.len() as int) =~= reported_evidence(
        evidence_view(evidence@),
    ));
    let mut misses: Vec<DiscriminatorExtractionMiss> = Vec::new();
    let mut j: usize = 0;
    assert(facts@.take(0) =~= Seq::<FactoryDiscriminatorFacts>::empty());
    assert(misses_view(misses@) =~= Seq::<MissShape>::empty());
    while j < facts.len()
        invariant
            j <= facts.len(),
            forall|k: int| 0 <= k < facts.len() ==> (#[trigger] facts[k]).wf(),
            misses_view(misses@) == facts_misses(facts@.take(j as int)),
        decreases facts.len() - j,
    {
        assert(facts@.take(j + 1).drop_last() =~= facts@.take(j as int));
        assert(facts@.take(j + 1).last() == facts[j as int]);
        let ghost prev = misses@;
        match miss_from_factory_fact(&facts[j]) {
            Some(m) => {
                misses.push(m);
                assert(misses_view(misses@) =~= misses_view(prev).push(misses@.last()@));
            },
            None => {},
        }
        j = j + 1;
    }
    assert(facts@.take(facts.len() as int) =~= facts@);
    let mut more = variant_value_misses(candidate_variants, evidence, values);
    let ghost before = misses@;
    let ghost mv = more@;
    misses.append(&mut more);
    assert(misses_view(misses@) =~= misses_view(before) + misses_view(mv));
    DiscriminatorScanDiagnostics { evidence: entries, misses }
}

// ---------------------------------------------------------------------------
// Scanning converter factories
// ---------------------------------------------------------------------------

/// The length of a function table entry (zero when it ends before it begins).
pub open spec fn func_len(f: RuntimeFunction) -> u32 {
    if f.end_address >= f.begin_address {
        (f.end_address - f.begin_address) as u32
    } else {
        0
    }
}

/// The instructions of a function short enough to be a converter factory,
/// when its code lies within the file.
pub open spec fn factory_insns(raw: Seq<u8>, secs: Seq<crate::pe::SectionShape>, base: u64, f: RuntimeFunction) -> Option<
    Seq<InsnShape>,
> {
    let len = func_len(f);
    if len == 0 || len > MAX_FACTORY_FUNCTION_LEN {
        None
    } else {
        match crate::pe::bytes_at(raw, secs, f.begin_address, len as int) {
            Some(b) => Some(decoded(b, crate::pe::code_ip(base, f.begin_address))),
            None => None,
        }
    }
}

/// The RVA a RIP-relative `lea` loads.
pub open spec fn lea_target(i: InsnShape, base: u64) -> Option<u32> {
    if is_rip_lea(i) {
        rva_of(i.memory_displacement, base)
    } else {
        None
    }
}

/// The instruction loads the vtable of a candidate variant.
pub open spec fn loads_candidate_vtable(rtti: &RttiEngine, cands: Seq<Seq<char>>, base: u64, i: InsnShape) -> bool {
    match lea_target(i, base) {
        Some(t) => match rtti.vtable_to_type.spec_get(t) {
            Some(n) => cands.contains(n@),
            None => false,
        },
        None => false,
    }
}

/// The text the instruction loads, when it loads a zero-terminated string.
pub open spec fn loaded_text(raw: Seq<u8>, secs: Seq<crate::pe::SectionShape>, base: u64, i: InsnShape) -> Option<
    Seq<char>,
> {
    match lea_target(i, base) {
        Some(t) => cstring_at(raw, secs, t),
        None => None,
    }
}

/// A function may be a converter factory: its instructions load a candidate
/// variant's vtable, the string `_type`, and a SCREAM_CASE string.
pub open spec fn converter_factory_candidate(pe: &PeImage, rtti: &RttiEngine, cands: Seq<Seq<char>>, f: RuntimeFunction) -> bool {
    match factory_insns(pe.raw@, pe.sections_spec(), pe.image_base, f) {
        Some(ins) => (exists|k: int| 0 <= k < ins.len() && loads_candidate_vtable(rtti, cands, pe.image_base, #[trigger] ins[k]))
            && (exists|k: int| 0 <= k < ins.len() && loaded_text(pe.raw@, pe.sections_spec(), pe.image_base, #[trigger] ins[k])
            == Some("_type"@)) && (exists|k: int| 0 <= k < ins.len() && (loaded_text(pe.raw@, pe.sections_spec(), pe.image_base, #[trigger] ins[k])
            matches Some(v) && scream_case(v))),
        None => false,
    }
}

fn lea_target_exec(i: &Insn, base: u64) -> (r: Option<u32>)
    ensures
        r == lea_target(i@, base),
{
    if rip_lea(i) {
        target_rva(i.memory_displacement, base)
    } else {
        None
    }
}

fn factory_code(pe: &PeImage, func: &RuntimeFunction) -> (r: Option<Vec<Insn>>)
    ensures
        match r {
            Some(v) => factory_insns(pe.raw@, pe.sections_spec(), pe.image_base, *func) == Some(insns_view(v@)),
            None => factory_insns(pe.raw@, pe.sections_spec(), pe.image_base, *func) is None,
        },
{
    let len = func.len();
    if len == 0 || len > MAX_FACTORY_FUNCTION_LEN {
        return None;
    }
    let code = match pe.slice_at_rva(func.begin_address, len as usize) {
        Some(c) => c,
        None => {
            return None;
        },
    };
    let ip = crate::pe::code_address(pe.image_base, func.begin_address);
    Some(decode_all(code, ip))
}

/// Whether the function may be a converter factory (see
/// [`converter_factory_candidate`]).
pub fn is_converter_factory_candidate(
    pe: &PeImage,
    rtti: &RttiEngine,
    candidate_variants: &NameSet,
    func: &RuntimeFunction,
) -> (r: bool)
    requires
        rtti.wf(),
    ensures
        r == converter_factory_candidate(pe, rtti, candidate_variants@, *func),
{
    let ins = match factory_code(pe, func) {
        Some(v) => v,
        None => {
            return false;
        },
    };
    let ghost iv = insns_view(ins@);
    let ghost raw = pe.raw@;
    let ghost secs = pe.sections_spec();
    let ghost cands = candidate_variants@;
    let mut saw_variant = false;
    let mut saw_field = false;
    let mut saw_value = false;
    let mut i: usize = 0;
    while i < ins.len() && !(saw_variant && saw_field && saw_value)
        invariant
            i <= ins.len(),
            iv == insns_view(ins@),
            rtti.wf(),
            raw == pe.raw@,
            secs == pe.sections_spec(),
            cands == candidate_variants@,
            saw_variant == exists|k: int| 0 <= k < i && loads_candidate_vtable(rtti, cands, pe.image_base, #[trigger] iv[k]),
            saw_field == exists|k: int| 0 <= k < i && loaded_text(raw, secs, pe.image_base, #[trigger] iv[k]) == Some(
                "_type"@,
            ),
            saw_value == exists|k: int| 0 <= k < i && (loaded_text(raw, secs, pe.image_base, #[trigger] iv[k]) matches Some(
                v,
            ) && scream_case(v)),
        decreases ins.len() - i,
    {
        let insn = &ins[i];
        assert(iv[i as int] == insn@);
        if let Some(t) = lea_target_exec(insn, pe.image_base) {
            if let Some(vt_name) = rtti.vtable_to_type.get(t) {
                if candidate_variants.contains(vt_name.as_str()) {
                    saw_variant = true;
                }
            }
            if let Some(value) = pe.read_cstring(t) {
                if str_eq(value, "_type") {
                    saw_field = true;
                }
                if is_scream_case_discriminator_value(value) {
                    saw_value = true;
                }
            }
        }
        i = i + 1;
    }
    saw_variant && saw_field && saw_value
}

/// The functions of the table that may be converter factories, in table
/// order.
pub fn candidate_converter_factory_functions(pe: &PeImage, rtti: &RttiEngine, candidate_variants: &NameSet) -> (r: Vec<
    RuntimeFunction,
>)
    requires
        rtti.wf(),
    ensures
        r@ == factory_candidates(pe, rtti, candidate_variants@),
{
    let ghost pred = factory_test(pe, rtti, candidate_variants@);
    let mut out: Vec<RuntimeFunction> = Vec::new();
    let mut i: usize = 0;
    assert(pe.pdata@.take(0).filter(pred) =~= Seq::<RuntimeFunction>::empty());
    while i < pe.pdata.len()
        invariant
            i <= pe.pdata.len(),
            rtti.wf(),
            pred == factory_test(pe, rtti, candidate_variants@),
            out@ == pe.pdata@.take(i as int).filter(pred),
        decreases pe.pdata.len() - i,
    {
        let f = pe.pdata[i];
        let ghost prev = pe.pdata@.take(i as int);
        assert(pe.pdata@.take(i + 1) =~= prev.push(f));
        proof {
            prev.lemma_filter_push(f, pred);
        }
        if is_converter_factory_candidate(pe, rtti, candidate_variants, &f) {
            out.push(f);
        }
        i = i + 1;
    }
    assert(pe.pdata@.take(pe.pdata.len() as int) =~= pe.pdata@);
    out
}


// ---------------------------------------------------------------------------
// Register tracking inside a converter factory
// ---------------------------------------------------------------------------

/// What a register is known to hold while a factory is scanned.
#[derive(Debug)]
pub enum RegValue {
    /// The address of a candidate variant's vtable.
    VariantVtable(String),
    /// The address of an object whose vtable slot was set to that variant.
    ConstructedVariant(String),
    /// The address of a zero-terminated string.
    StringLiteral(String),
}

/// The abstract value of a [`RegValue`].
pub enum RegShape {
    VariantVtable(Seq<char>),
    ConstructedVariant(Seq<char>),
    StringLiteral(Seq<char>),
}

impl View for RegValue {
    type V = RegShape;

    open spec fn view(&self) -> RegShape {
        match self {
            RegValue::VariantVtable(s) => RegShape::VariantVtable(s@),
            RegValue::ConstructedVariant(s) => RegShape::ConstructedVariant(s@),
            RegValue::StringLiteral(s) => RegShape::StringLiteral(s@),
        }
    }
}

impl RegValue {
    /// A copy of the value.
    pub fn duplicate(&self) -> (r: RegValue)
        ensures
            r@ == self@,
    {
        match self {
            RegValue::VariantVtable(s) => RegValue::VariantVtable(s.clone()),
            RegValue::ConstructedVariant(s) => RegValue::ConstructedVariant(s.clone()),
            RegValue::StringLiteral(s) => RegValue::StringLiteral(s.clone()),
        }
    }
}

/// The state of a factory scan: what each register holds and the facts
/// gathered so far.
pub struct ScanState {
    pub regs: Map<Seq<char>, RegShape>,
    pub constructed: Set<Seq<char>>,
    pub assigns: Set<Seq<char>>,
    pub direct: Map<Seq<char>, Set<Seq<char>>>,
    pub ambiguous: bool,
}

/// The state before the first instruction.
pub open spec fn initial_scan_state() -> ScanState {
    ScanState {
        regs: Map::empty(),
        constructed: Set::empty(),
        assigns: Set::empty(),
        direct: Map::empty(),
        ambiguous: false,
    }
}

/// `regs` with `r` set to `v`, or cleared when `v` is `None`.
pub open spec fn set_reg(regs: Map<Seq<char>, RegShape>, r: Seq<char>, v: Option<RegShape>) -> Map<Seq<char>, RegShape> {
    match v {
        Some(x) => regs.insert(r, x),
        None => regs.remove(r),
    }
}

/// The value a RIP-relative `lea` gives its destination: a candidate
/// variant's vtable, else the string `_type` or a SCREAM_CASE string.
pub open spec fn lea_value(pe: &PeImage, rtti: &RttiEngine, cands: Seq<Seq<char>>, i: InsnShape) -> Option<RegShape> {
    if i.op1_kind == "Memory"@ && i.memory_base == "RIP"@ {
        match rva_of(i.memory_displacement, pe.image_base) {
            Some(t) => {
                let vt = rtti.vtable_to_type.spec_get(t);
                if vt is Some && cands.contains(vt->0@) {
                    Some(RegShape::VariantVtable(vt->0@))
                } else {
                    match cstring_at(pe.raw@, pe.sections_spec(), t) {
                        Some(v) => if v == "_type"@ || scream_case(v) {
                            Some(RegShape::StringLiteral(v))
                        } else {
                            None
                        },
                        None => None,
                    }
                }
            },
            None => None,
        }
    } else {
        None
    }
}

/// The memory operand is addressed through a register other than RIP.
pub open spec fn object_store(i: InsnShape) -> bool {
    i.memory_base != "None"@ && i.memory_base != "RIP"@
}

/// Effect of a `mov`.
pub open spec fn mov_step(st: ScanState, i: InsnShape) -> ScanState {
    if i.op0_kind == "Register"@ {
        let v = if i.op1_kind == "Register"@ {
            st.regs.get(i.op1_full_register)
        } else {
            None
        };
        ScanState { regs: set_reg(st.regs, i.op0_full_register, v), ..st }
    } else if i.op0_kind == "Memory"@ && i.op1_kind == "Register"@ {
        match st.regs.get(i.op1_full_register) {
            Some(RegShape::VariantVtable(n)) => if object_store(i) {
                let regs = if i.memory_base_full != "None"@ && i.memory_base_full != "RIP"@ {
                    st.regs.insert(i.memory_base_full, RegShape::ConstructedVariant(n))
                } else {
                    st.regs
                };
                ScanState { regs, constructed: st.constructed.insert(n), ..st }
            } else {
                st
            },
            _ => st,
        }
    } else {
        st
    }
}

/// The registers that carry the first four call arguments.
pub open spec fn argument_registers() -> Seq<Seq<char>> {
    seq!["RCX"@, "RDX"@, "R8"@, "R9"@]
}

/// The string a register points to, if any.
pub open spec fn literal_in(regs: Map<Seq<char>, RegShape>, r: Seq<char>) -> Option<Seq<char>> {
    match regs.get(r) {
        Some(RegShape::StringLiteral(v)) => Some(v),
        _ => None,
    }
}

/// The variant whose object a register points to, if any.
pub open spec fn constructed_in(regs: Map<Seq<char>, RegShape>, r: Seq<char>) -> Option<Seq<char>> {
    match regs.get(r) {
        Some(RegShape::ConstructedVariant(v)) => Some(v),
        _ => None,
    }
}

/// The present values, in order.
pub open spec fn present(s: Seq<Option<Seq<char>>>) -> Seq<Seq<char>>
    decreases s.len(),
{
    if s.len() == 0 {
        Seq::empty()
    } else {
        let p = present(s.drop_last());
        match s.last() {
            Some(v) => p.push(v),
            None => p,
        }
    }
}

/// The strings the argument registers point to, in register order.
pub open spec fn literal_args(regs: Map<Seq<char>, RegShape>) -> Seq<Seq<char>> {
    present(argument_registers().map_values(|r: Seq<char>| literal_in(regs, r)))
}

/// The constructed variants the argument registers point to.
pub open spec fn constructed_args(regs: Map<Seq<char>, RegShape>) -> Seq<Seq<char>> {
    present(argument_registers().map_values(|r: Seq<char>| constructed_in(regs, r)))
}

/// The SCREAM_CASE strings of `s`, in order.
pub open spec fn scream_values(s: Seq<Seq<char>>) -> Seq<Seq<char>> {
    s.filter(|v: Seq<char>| scream_case(v))
}

/// The one distinct value of `s`, when it has exactly one.
pub open spec fn only_value(s: Seq<Seq<char>>) -> Option<Seq<char>> {
    if s.len() > 0 && (forall|k: int| 0 <= k < s.len() ==> #[trigger] s[k] == s[0]) {
        Some(s[0])
    } else {
        None
    }
}

/// A call that passes the string `_type` assigns the one SCREAM_CASE string
/// among its arguments (to the one constructed variant among them, when
/// there is one); with none or several the assignment is ambiguous.
pub open spec fn call_step(st: ScanState) -> ScanState {
    let lits = literal_args(st.regs);
    if !lits.contains("_type"@) {
        st
    } else {
        match only_value(scream_values(lits)) {
            Some(v) => {
                let direct = match only_value(constructed_args(st.regs)) {
                    Some(c) => st.direct.insert(
                        c,
                        if st.direct.contains_key(c) {
                            st.direct[c].insert(v)
                        } else {
                            Set::empty().insert(v)
                        },
                    ),
                    None => st.direct,
                };
                ScanState { assigns: st.assigns.insert(v), direct, ..st }
            },
            None => ScanState { ambiguous: true, ..st },
        }
    }
}

/// The names of the volatile registers.
pub open spec fn volatile_set() -> Set<Seq<char>> {
    Set::new(|r: Seq<char>| exists|k: int| 0 <= k < 7 && X64_VOLATILE_REGISTERS@[k]@ == r)
}

/// An instruction that writes a register clears what it held.
pub open spec fn clear_written(st: ScanState, i: InsnShape) -> ScanState {
    if i.op0_kind == "Register"@ {
        ScanState { regs: st.regs.remove(i.op0_full_register), ..st }
    } else {
        st
    }
}

/// Effect of one instruction on the scan.
pub open spec fn scan_step(pe: &PeImage, rtti: &RttiEngine, cands: Seq<Seq<char>>, st: ScanState, i: InsnShape) -> ScanState {
    if i.mnemonic == "Lea"@ {
        ScanState { regs: set_reg(st.regs, i.op0_full_register, lea_value(pe, rtti, cands, i)), ..st }
    } else if i.mnemonic == "Mov"@ {
        mov_step(st, i)
    } else if i.mnemonic == "Call"@ {
        let s2 = call_step(st);
        ScanState { regs: s2.regs.remove_keys(volatile_set()), ..s2 }
    } else {
        clear_written(st, i)
    }
}

/// The scan state after the first `n` instructions.
pub open spec fn scan_prefix(pe: &PeImage, rtti: &RttiEngine, cands: Seq<Seq<char>>, ins: Seq<InsnShape>, n: int) -> ScanState
    decreases n,
{
    if n <= 0 {
        initial_scan_state()
    } else {
        scan_step(pe, rtti, cands, scan_prefix(pe, rtti, cands, ins, n - 1), ins[n - 1])
    }
}

/// What a scan of the function establishes: `None` when its code cannot be
/// had or it neither constructs a candidate nor assigns a value.
pub open spec fn function_facts(pe: &PeImage, rtti: &RttiEngine, cands: Seq<Seq<char>>, f: RuntimeFunction) -> Option<ScanState> {
    match factory_insns(pe.raw@, pe.sections_spec(), pe.image_base, f) {
        Some(ins) => {
            let st = scan_prefix(pe, rtti, cands, ins, ins.len() as int);
            if st.constructed == Set::<Seq<char>>::empty() && st.assigns == Set::<Seq<char>>::empty() {
                None
            } else {
                Some(st)
            }
        },
        None => None,
    }
}

/// The register map holds what `regs` says.
pub open spec fn regs_match(m: &NameMap<Option<RegValue>>, regs: Map<Seq<char>, RegShape>) -> bool {
    &&& m.wf()
    &&& forall|k: Seq<char>| #[trigger] reg_of(m, k) == regs.get(k)
}

/// What the register map holds for `k`.
pub open spec fn reg_of(m: &NameMap<Option<RegValue>>, k: Seq<char>) -> Option<RegShape> {
    match m.spec_get(k) {
        Some(Some(v)) => Some(v@),
        _ => None,
    }
}

/// The map of direct assignments holds what `d` says.
pub open spec fn direct_match(m: &NameMap<NameSet>, d: Map<Seq<char>, Set<Seq<char>>>) -> bool {
    forall|k: Seq<char>| #![trigger m.spec_get(k)] #![trigger d.contains_key(k)]
        (m.spec_get(k) is Some <==> d.contains_key(k)) && (m.spec_get(k) is Some ==> m.spec_get(k)->0@.to_set() == d[k])
}

/// The facts hold what the scan state says.
pub open spec fn facts_match(f: &FactoryDiscriminatorFacts, st: ScanState) -> bool {
    &&& f.wf()
    &&& f.constructed_variants@.to_set() == st.constructed
    &&& f.type_assignments@.to_set() == st.assigns
    &&& direct_match(&f.direct_type_assignments, st.direct)
    &&& f.ambiguous_type_assignment == st.ambiguous
}


/// Register map view of an optional value.
pub open spec fn opt_reg(v: Option<RegValue>) -> Option<RegShape> {
    match v {
        Some(x) => Some(x@),
        None => None,
    }
}

/// `v` appended to `p` when present.
pub open spec fn push_opt(p: Seq<Seq<char>>, v: Option<Seq<char>>) -> Seq<Seq<char>> {
    match v {
        Some(x) => p.push(x),
        None => p,
    }
}

proof fn lemma_present_four(a: Option<Seq<char>>, b: Option<Seq<char>>, c: Option<Seq<char>>, d: Option<Seq<char>>)
    ensures
        present(seq![a, b, c, d]) == push_opt(push_opt(push_opt(push_opt(Seq::empty(), a), b), c), d),
{
    let s = seq![a, b, c, d];
    assert(s.drop_last() =~= seq![a, b, c]);
    assert(seq![a, b, c].drop_last() =~= seq![a, b]);
    assert(seq![a, b].drop_last() =~= seq![a]);
    assert(seq![a].drop_last() =~= Seq::<Option<Seq<char>>>::empty());
    reveal_with_fuel(present, 5);
}

proof fn lemma_argument_values(regs: Map<Seq<char>, RegShape>)
    ensures
        literal_args(regs) == push_opt(
            push_opt(push_opt(push_opt(Seq::empty(), literal_in(regs, "RCX"@)), literal_in(regs, "RDX"@)), literal_in(regs, "R8"@)),
            literal_in(regs, "R9"@),
        ),
        constructed_args(regs) == push_opt(
            push_opt(
                push_opt(push_opt(Seq::empty(), constructed_in(regs, "RCX"@)), constructed_in(regs, "RDX"@)),
                constructed_in(regs, "R8"@),
            ),
            constructed_in(regs, "R9"@),
        ),
{
    let a = argument_registers();
    assert(a.map_values(|r: Seq<char>| literal_in(regs, r)) =~= seq![
        literal_in(regs, "RCX"@),
        literal_in(regs, "RDX"@),
        literal_in(regs, "R8"@),
        literal_in(regs, "R9"@),
    ]);
    assert(a.map_values(|r: Seq<char>| constructed_in(regs, r)) =~= seq![
        constructed_in(regs, "RCX"@),
        constructed_in(regs, "RDX"@),
        constructed_in(regs, "R8"@),
        constructed_in(regs, "R9"@),
    ]);
    lemma_present_four(
        literal_in(regs, "RCX"@),
        literal_in(regs, "RDX"@),
        literal_in(regs, "R8"@),
        literal_in(regs, "R9"@),
    );
    lemma_present_four(
        constructed_in(regs, "RCX"@),
        constructed_in(regs, "RDX"@),
        constructed_in(regs, "R8"@),
        constructed_in(regs, "R9"@),
    );
}

/// What register `r` holds.
fn reg_get(regs: &NameMap<Option<RegValue>>, r: &str) -> (v: Option<RegValue>)
    requires
        regs.wf(),
    ensures
        opt_reg(v) == reg_of(regs, r@),
{
    match regs.get(r) {
        Some(Some(x)) => Some(x.duplicate()),
        _ => None,
    }
}

/// Sets register `r` to `v`, or clears it.
fn put_reg(regs: &mut NameMap<Option<RegValue>>, r: &str, v: Option<RegValue>, Ghost(ab): Ghost<Map<Seq<char>, RegShape>>)
    requires
        regs_match(old(regs), ab),
    ensures
        regs_match(final(regs), set_reg(ab, r@, opt_reg(v))),
{
    let ghost ov = opt_reg(v);
    regs.set(owned(r), v);
    assert forall|k: Seq<char>| #[trigger] reg_of(regs, k) == set_reg(ab, r@, ov).get(k) by {
        if k != r@ {
            assert(reg_of(regs, k) == reg_of(old(regs), k));
        }
    }
}

/// Effect of a `lea` on the registers.
fn handle_lea(
    pe: &PeImage,
    rtti: &RttiEngine,
    candidate_variants: &NameSet,
    regs: &mut NameMap<Option<RegValue>>,
    insn: &Insn,
    Ghost(ab): Ghost<Map<Seq<char>, RegShape>>,
)
    requires
        rtti.wf(),
        regs_match(old(regs), ab),
    ensures
        regs_match(final(regs), set_reg(ab, insn.op0_full_register@, lea_value(pe, rtti, candidate_variants@, insn@))),
{
    let dest = insn.op0_full_register.as_str();
    if !(str_eq(insn.op1_kind.as_str(), "Memory") && str_eq(insn.memory_base.as_str(), "RIP")) {
        put_reg(regs, dest, None, Ghost(ab));
        return;
    }
    let t = match target_rva(insn.memory_displacement, pe.image_base) {
        Some(t) => t,
        None => {
            put_reg(regs, dest, None, Ghost(ab));
            return;
        },
    };
    if let Some(n) = rtti.vtable_to_type.get(t) {
        if candidate_variants.contains(n.as_str()) {
            put_reg(regs, dest, Some(RegValue::VariantVtable(n.clone())), Ghost(ab));
            return;
        }
    }
    if let Some(value) = pe.read_cstring(t) {
        if str_eq(value, "_type") || is_scream_case_discriminator_value(value) {
            put_reg(regs, dest, Some(RegValue::StringLiteral(owned(value))), Ghost(ab));
            return;
        }
    }
    put_reg(regs, dest, None, Ghost(ab));
}

/// The store goes through a register other than RIP.
fn is_object_memory_store(insn: &Insn) -> (r: bool)
    ensures
        r == object_store(insn@),
{
    !str_eq(insn.memory_base.as_str(), "None") && !str_eq(insn.memory_base.as_str(), "RIP")
}

/// Effect of a `mov` on the registers and facts.
fn handle_mov(
    regs: &mut NameMap<Option<RegValue>>,
    facts: &mut FactoryDiscriminatorFacts,
    insn: &Insn,
    Ghost(st): Ghost<ScanState>,
)
    requires
        regs_match(old(regs), st.regs),
        facts_match(old(facts), st),
    ensures
        regs_match(final(regs), mov_step(st, insn@).regs),
        facts_match(final(facts), mov_step(st, insn@)),
        final(facts).function_rva == old(facts).function_rva,
{
    if str_eq(insn.op0_kind.as_str(), "Register") {
        let v = if str_eq(insn.op1_kind.as_str(), "Register") {
            reg_get(regs, insn.op1_full_register.as_str())
        } else {
            None
        };
        put_reg(regs, insn.op0_full_register.as_str(), v, Ghost(st.regs));
        return;
    }
    if str_eq(insn.op0_kind.as_str(), "Memory") && str_eq(insn.op1_kind.as_str(), "Register") {
        if let Some(RegValue::VariantVtable(n)) = reg_get(regs, insn.op1_full_register.as_str()) {
            if is_object_memory_store(insn) {
                facts.constructed_variants.insert(n.clone());
                let base = insn.memory_base_full.as_str();
                if !str_eq(base, "None") && !str_eq(base, "RIP") {
                    put_reg(regs, base, Some(RegValue::ConstructedVariant(n)), Ghost(st.regs));
                }
            }
        }
    }
}

/// Appends the value register `r` holds when `keep` selects it.
fn collect_argument(regs: &NameMap<Option<RegValue>>, r: &str, lits: &mut Vec<String>, cons: &mut Vec<String>, Ghost(ab): Ghost<Map<Seq<char>, RegShape>>)
    requires
        regs_match(regs, ab),
    ensures
        final(lits).deep_view() == push_opt(old(lits).deep_view(), literal_in(ab, r@)),
        final(cons).deep_view() == push_opt(old(cons).deep_view(), constructed_in(ab, r@)),
{
    assert(reg_of(regs, r@) == ab.get(r@));
    match reg_get(regs, r) {
        Some(RegValue::StringLiteral(v)) => {
            let ghost before = lits.deep_view();
            lits.push(v);
            assert(lits.deep_view() =~= before.push(literal_in(ab, r@)->0));
        },
        Some(RegValue::ConstructedVariant(c)) => {
            let ghost before = cons.deep_view();
            cons.push(c);
            assert(cons.deep_view() =~= before.push(constructed_in(ab, r@)->0));
        },
        _ => {},
    }
}

/// Whether `s` holds `x`.
fn holds(s: &Vec<String>, x: &str) -> (r: bool)
    ensures
        r == s.deep_view().contains(x@),
{
    let mut i: usize = 0;
    while i < s.len()
        invariant
            i <= s.len(),
            forall|k: int| 0 <= k < i ==> s.deep_view()[k] != x@,
        decreases s.len() - i,
    {
        if str_eq(s[i].as_str(), x) {
            assert(s.deep_view()[i as int] == x@);
            return true;
        }
        i = i + 1;
    }
    false
}

/// The SCREAM_CASE strings of `s` (see [`scream_values`]).
fn scream_strings(s: &Vec<String>) -> (r: Vec<String>)
    ensures
        r.deep_view() == scream_values(s.deep_view()),
{
    let ghost sv = s.deep_view();
    let mut out: Vec<String> = Vec::new();
    let mut i: usize = 0;
    assert(sv.take(0) =~= Seq::<Seq<char>>::empty());
    assert(out.deep_view() =~= Seq::<Seq<char>>::empty());
    while i < s.len()
        invariant
            i <= s.len(),
            sv == s.deep_view(),
            out.deep_view() == scream_values(sv.take(i as int)),
        decreases s.len() - i,
    {
        let ghost prev = sv.take(i as int);
        assert(sv.take(i + 1) =~= prev.push(sv[i as int]));
        proof {
            prev.lemma_filter_push(sv[i as int], |v: Seq<char>| scream_case(v));
        }
        if is_scream_case_discriminator_value(s[i].as_str()) {
            let ghost before = out.deep_view();
            out.push(s[i].clone());
            assert(out.deep_view() =~= before.push(sv[i as int]));
        }
        i = i + 1;
    }
    assert(sv.take(s.len() as int) =~= sv);
    out
}

/// The one distinct string of `s` (see [`only_value`]).
fn only_string(s: &Vec<String>) -> (r: Option<String>)
    ensures
        opt_text(r) == only_value(s.deep_view()),
{
    let ghost sv = s.deep_view();
    if s.len() == 0 {
        return None;
    }
    let mut i: usize = 1;
    while i < s.len()
        invariant
            1 <= i <= s.len(),
            sv == s.deep_view(),
            forall|k: int| 0 <= k < i ==> #[trigger] sv[k] == sv[0],
        decreases s.len() - i,
    {
        if !str_eq(s[i].as_str(), s[0].as_str()) {
            assert(sv[i as int] != sv[0]);
            return None;
        }
        i = i + 1;
    }
    Some(s[0].clone())
}

/// Under the map's well-formedness, each stored set is well formed exactly
/// when each value at a position is.
proof fn lemma_stored_sets_wf(m: &NameMap<NameSet>)
    requires
        m.wf(),
    ensures
        (forall|i: int| 0 <= i < m.vals().len() ==> (#[trigger] m.vals()[i]).wf()) <==> (forall|k: Seq<char>|
            #[trigger] m.spec_get(k) is Some ==> m.spec_get(k)->0.wf()),
{
    if forall|i: int| 0 <= i < m.vals().len() ==> (#[trigger] m.vals()[i]).wf() {
        assert forall|k: Seq<char>| #[trigger] m.spec_get(k) is Some implies m.spec_get(k)->0.wf() by {
            m.lemma_domain(k);
            let i = choose|i: int| 0 <= i < m.keys().len() && m.keys()[i] == k;
            m.lemma_get_at(i);
        }
    }
    if forall|k: Seq<char>| #[trigger] m.spec_get(k) is Some ==> m.spec_get(k)->0.wf() {
        assert forall|i: int| 0 <= i < m.vals().len() implies (#[trigger] m.vals()[i]).wf() by {
            m.lemma_get_at(i);
        }
    }
}

/// Records what a call assigns to `_type` (see [`call_step`]).
fn record_type_assignment_from_call(
    regs: &NameMap<Option<RegValue>>,
    facts: &mut FactoryDiscriminatorFacts,
    Ghost(st): Ghost<ScanState>,
)
    requires
        regs_match(regs, st.regs),
        facts_match(old(facts), st),
    ensures
        facts_match(final(facts), call_step(st)),
        final(facts).function_rva == old(facts).function_rva,
{
    let mut lits: Vec<String> = Vec::new();
    let mut cons: Vec<String> = Vec::new();
    assert(lits.deep_view() =~= Seq::<Seq<char>>::empty());
    assert(cons.deep_view() =~= Seq::<Seq<char>>::empty());
    collect_argument(regs, "RCX", &mut lits, &mut cons, Ghost(st.regs));
    collect_argument(regs, "RDX", &mut lits, &mut cons, Ghost(st.regs));
    collect_argument(regs, "R8", &mut lits, &mut cons, Ghost(st.regs));
    collect_argument(regs, "R9", &mut lits, &mut cons, Ghost(st.regs));
    proof {
        lemma_argument_values(st.regs);
    }
    if !holds(&lits, "_type") {
        return;
    }
    let values = scream_strings(&lits);
    match only_string(&values) {
        Some(v) => {
            facts.type_assignments.insert(v.clone());
            if let Some(c) = only_string(&cons) {
                let ghost d = st.direct;
                let ghost old_map = facts.direct_type_assignments;
                proof {
                    lemma_stored_sets_wf(&facts.direct_type_assignments);
                }
                let mut set = match facts.direct_type_assignments.get(c.as_str()) {
                    Some(existing) => existing.clone_set(),
                    None => NameSet::new(),
                };
                assert(set.wf());
                set.insert(v);
                let ghost nv = set;
                facts.direct_type_assignments.set(c, set);
                proof {
                    let m = facts.direct_type_assignments;
                    assert forall|k: Seq<char>| #[trigger] m.spec_get(k) is Some implies m.spec_get(k)->0.wf() by {
                        if k != c@ {
                            assert(m.spec_get(k) == old_map.spec_get(k));
                        }
                    }
                    lemma_stored_sets_wf(&m);
                    let d2 = call_step(st).direct;
                    assert forall|k: Seq<char>| (m.spec_get(k) is Some <==> d2.contains_key(k)) && (m.spec_get(k) is Some
                        ==> m.spec_get(k)->0@.to_set() == d2[k]) by {
                        if k != c@ {
                            assert(m.spec_get(k) == old_map.spec_get(k));
                        } else {
                            if old_map.spec_get(k) is None {
                                assert(Seq::<Seq<char>>::empty().to_set() =~= Set::<Seq<char>>::empty());
                            }
                        }
                    }
                }
            }
        },
        None => {
            facts.ambiguous_type_assignment = true;
        },
    }
}

/// Clears the volatile registers after a call.
fn clear_volatile_registers(regs: &mut NameMap<Option<RegValue>>, Ghost(ab): Ghost<Map<Seq<char>, RegShape>>)
    requires
        regs_match(old(regs), ab),
    ensures
        regs_match(final(regs), ab.remove_keys(volatile_set())),
{
    let mut k: usize = 0;
    while k < 7
        invariant
            k <= 7,
            regs.wf(),
            forall|q: Seq<char>| #[trigger] reg_of(regs, q) == (if exists|j: int| 0 <= j < k && X64_VOLATILE_REGISTERS@[j]@
                == q {
                None
            } else {
                ab.get(q)
            }),
        decreases 7 - k,
    {
        let r = X64_VOLATILE_REGISTERS[k];
        let ghost cur = Map::new(|q: Seq<char>| reg_of(regs, q) is Some, |q: Seq<char>| reg_of(regs, q)->0);
        assert forall|q: Seq<char>| #[trigger] reg_of(regs, q) == cur.get(q) by {}
        put_reg(regs, r, None, Ghost(cur));
        assert forall|q: Seq<char>| #[trigger] reg_of(regs, q) == (if exists|j: int| 0 <= j < k + 1
            && X64_VOLATILE_REGISTERS@[j]@ == q {
            None
        } else {
            ab.get(q)
        }) by {
            if q == r@ {
                assert(X64_VOLATILE_REGISTERS@[k as int]@ == q);
            } else {
                assert(reg_of(regs, q) == cur.get(q));
                if exists|j: int| 0 <= j < k + 1 && X64_VOLATILE_REGISTERS@[j]@ == q {
                    let j = choose|j: int| 0 <= j < k + 1 && X64_VOLATILE_REGISTERS@[j]@ == q;
                    assert(j != k);
                }
            }
        }
        k = k + 1;
    }
    assert forall|q: Seq<char>| #[trigger] reg_of(regs, q) == ab.remove_keys(volatile_set()).get(q) by {
        if volatile_set().contains(q) {
            let j = choose|j: int| 0 <= j < 7 && X64_VOLATILE_REGISTERS@[j]@ == q;
        }
    }
}

/// Clears the register an instruction writes.
fn clear_written_register(regs: &mut NameMap<Option<RegValue>>, insn: &Insn, Ghost(st): Ghost<ScanState>)
    requires
        regs_match(old(regs), st.regs),
    ensures
        regs_match(final(regs), clear_written(st, insn@).regs),
{
    if str_eq(insn.op0_kind.as_str(), "Register") {
        put_reg(regs, insn.op0_full_register.as_str(), None, Ghost(st.regs));
    }
}


/// Scans a candidate converter factory: follows what each register holds
/// through its instructions and records the variants it constructs and the
/// values it assigns to `_type` (see [`function_facts`]).
pub fn scan_function_facts(
    pe: &PeImage,
    rtti: &RttiEngine,
    candidate_variants: &NameSet,
    func: &RuntimeFunction,
) -> (r: Option<FactoryDiscriminatorFacts>)
    requires
        rtti.wf(),
    ensures
        match (r, function_facts(pe, rtti, candidate_variants@, *func)) {
            (Some(f), Some(st)) => facts_match(&f, st) && f.function_rva == func.begin_address,
            (None, None) => true,
            _ => false,
        },
{
    let ins = match factory_code(pe, func) {
        Some(v) => v,
        None => {
            return None;
        },
    };
    let ghost iv = insns_view(ins@);
    let ghost cands = candidate_variants@;
    let mut regs: NameMap<Option<RegValue>> = NameMap::new();
    let mut facts = FactoryDiscriminatorFacts::new(func.begin_address);
    proof {
        assert forall|k: Seq<char>| #[trigger] reg_of(&regs, k) == initial_scan_state().regs.get(k) by {
            regs.lemma_get_absent(k);
        }
        assert(facts.constructed_variants@.to_set() =~= Set::<Seq<char>>::empty());
        assert(facts.type_assignments@.to_set() =~= Set::<Seq<char>>::empty());
        assert forall|k: Seq<char>| #![trigger facts.direct_type_assignments.spec_get(k)]
            facts.direct_type_assignments.spec_get(k) is None by {
            facts.direct_type_assignments.lemma_get_absent(k);
        }
    }
    let mut i: usize = 0;
    while i < ins.len()
        invariant
            i <= ins.len(),
            iv == insns_view(ins@),
            cands == candidate_variants@,
            rtti.wf(),
            regs_match(&regs, scan_prefix(pe, rtti, cands, iv, i as int).regs),
            facts_match(&facts, scan_prefix(pe, rtti, cands, iv, i as int)),
            facts.function_rva == func.begin_address,
        decreases ins.len() - i,
    {
        let insn = &ins[i];
        let ghost st = scan_prefix(pe, rtti, cands, iv, i as int);
        assert(iv[i as int] == insn@);
        let m = insn.mnemonic.as_str();
        if str_eq(m, "Lea") {
            handle_lea(pe, rtti, candidate_variants, &mut regs, insn, Ghost(st.regs));
        } else if str_eq(m, "Mov") {
            handle_mov(&mut regs, &mut facts, insn, Ghost(st));
        } else if str_eq(m, "Call") {
            record_type_assignment_from_call(&regs, &mut facts, Ghost(st));
            clear_volatile_registers(&mut regs, Ghost(call_step(st).regs));
        } else {
            clear_written_register(&mut regs, insn, Ghost(st));
        }
        i = i + 1;
    }
    let ghost fin = scan_prefix(pe, rtti, cands, iv, ins.len() as int);
    if facts.constructed_variants.is_empty() && facts.type_assignments.is_empty() {
        assert(facts.constructed_variants@ =~= Seq::<Seq<char>>::empty());
        assert(facts.type_assignments@ =~= Seq::<Seq<char>>::empty());
        assert(fin.constructed =~= Set::<Seq<char>>::empty());
        assert(fin.assigns =~= Set::<Seq<char>>::empty());
        None
    } else {
        proof {
            if facts.constructed_variants@.len() > 0 {
                assert(fin.constructed.contains(facts.constructed_variants@[0]));
            } else {
                assert(fin.assigns.contains(facts.type_assignments@[0]));
            }
        }
        Some(facts)
    }
}


/// The scan states of the functions of `fs` that yield facts, each with the
/// function's start, in order.
pub open spec fn scanned_facts(pe: &PeImage, rtti: &RttiEngine, cands: Seq<Seq<char>>, fs: Seq<RuntimeFunction>) -> Seq<
    (u32, ScanState),
>
    decreases fs.len(),
{
    if fs.len() == 0 {
        Seq::empty()
    } else {
        let p = scanned_facts(pe, rtti, cands, fs.drop_last());
        match function_facts(pe, rtti, cands, fs.last()) {
            Some(st) => p.push((fs.last().begin_address, st)),
            None => p,
        }
    }
}

/// `facts` hold, one by one, what the scan states say.
pub open spec fn facts_for(facts: Seq<FactoryDiscriminatorFacts>, states: Seq<(u32, ScanState)>) -> bool {
    &&& facts.len() == states.len()
    &&& forall|i: int| 0 <= i < facts.len() ==> facts_match(&#[trigger] facts[i], states[i].1) && facts[i].function_rva
        == states[i].0
}

/// The functions of the image that may be converter factories.
pub open spec fn factory_candidates(pe: &PeImage, rtti: &RttiEngine, cands: Seq<Seq<char>>) -> Seq<RuntimeFunction> {
    pe.pdata@.filter(factory_test(pe, rtti, cands))
}

/// The test [`converter_factory_candidate`] as a predicate on functions.
pub open spec fn factory_test(pe: &PeImage, rtti: &RttiEngine, cands: Seq<Seq<char>>) -> spec_fn(RuntimeFunction) -> bool {
    |f: RuntimeFunction| converter_factory_candidate(pe, rtti, cands, f)
}

/// What the discriminator scan gives for the candidate variants `cands`:
/// nothing when there are none; else, for the facts the candidate factories
/// yield, the single value of each variant, the evidence, and the misses.
pub open spec fn discriminator_outcome(
    pe: &PeImage,
    rtti: &RttiEngine,
    cands: Seq<Seq<char>>,
    values: NameMap<String>,
    diag: DiscriminatorScanDiagnostics,
) -> bool {
    &&& values.wf()
    &&& cands.len() == 0 ==> values.keys().len() == 0 && diag.evidence@.len() == 0 && diag.misses@.len() == 0
    &&& cands.len() > 0 ==> exists|facts: Seq<FactoryDiscriminatorFacts>| {
        &&& facts_for(facts, scanned_facts(pe, rtti, cands, factory_candidates(pe, rtti, cands)))
        &&& forall|k: Seq<char>| #[trigger] opt_text(values.spec_get(k)) == single_value(facts_evidence(facts), k)
        &&& diag.evidence@.map_values(|e: DiscriminatorValueEvidence| (e.variant_name@, e.value@, e.function_rva@))
            == reported_evidence(facts_evidence(facts))
        &&& misses_view(diag.misses@) == facts_misses(facts) + variant_misses(cands, facts_evidence(facts), values)
    }
}

/// Finds the discriminator value of each candidate variant from the
/// converter factories of the image, and reports the evidence and the
/// variants left without one.
pub fn scan_discriminator_values_with_diagnostics(
    pe: &PeImage,
    rtti: &RttiEngine,
    candidate_variants: &NameSet,
) -> (r: (NameMap<String>, DiscriminatorScanDiagnostics))
    requires
        rtti.wf(),
    ensures
        discriminator_outcome(pe, rtti, candidate_variants@, r.0, r.1),
{
    if candidate_variants.is_empty() {
        return (NameMap::new(), DiscriminatorScanDiagnostics::new());
    }
    let ghost cands = candidate_variants@;
    let funcs = candidate_converter_factory_functions(pe, rtti, candidate_variants);
    let mut facts: Vec<FactoryDiscriminatorFacts> = Vec::new();
    let mut i: usize = 0;
    assert(funcs@.take(0) =~= Seq::<RuntimeFunction>::empty());
    while i < funcs.len()
        invariant
            i <= funcs.len(),
            rtti.wf(),
            cands == candidate_variants@,
            facts_for(facts@, scanned_facts(pe, rtti, cands, funcs@.take(i as int))),
        decreases funcs.len() - i,
    {
        let ghost before = facts@;
        assert(funcs@.take(i + 1).drop_last() =~= funcs@.take(i as int));
        assert(funcs@.take(i + 1).last() == funcs[i as int]);
        if let Some(f) = scan_function_facts(pe, rtti, candidate_variants, &funcs[i]) {
            facts.push(f);
            assert(facts@ =~= before.push(facts@.last()));
        }
        i = i + 1;
    }
    assert(funcs@.take(funcs.len() as int) =~= funcs@);
    assert forall|k: int| 0 <= k < facts.len() implies (#[trigger] facts[k]).wf() by {
        assert(facts_match(&facts@[k], scanned_facts(pe, rtti, cands, funcs@)[k].1));
    }
    let evidence = evidence_from_factory_facts(&facts);
    let values = values_from_evidence(&evidence);
    let diagnostics = diagnostics_from_scan(candidate_variants, &facts, &evidence, &values);
    (values, diagnostics)
}

} // verus!
