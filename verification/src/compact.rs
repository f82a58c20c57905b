//! The compact, line-oriented text form of a dump: one line per entry, every
//! section in a stable order.
use vstd::prelude::*;
use crate::names::{name_lt, str_lt, lemma_lt_irreflexive, lemma_lt_transitive};
use crate::text::{str_eq, append, append_str, chars_of, decimal_chars, decimal_text, string_of, join, join_seqs};
use crate::extractor::{ExtractedField, FieldShape, fields_view};
use crate::dumper::{
    DumpResult, EntryShape, EventEntry, ModelEntry, PacketEntry, PolymorphicModelEntry, PolymorphicVariant,
    TypeDescriptorEntry, VariantShape, variants_view,
};

verus! {

// ---------------------------------------------------------------------------
// Ordering
// ---------------------------------------------------------------------------

/// What entries are ordered by: a number first, then a list of optional
/// names compared in turn (an absent name sorts first, as `Option` does).
pub struct SortKey {
    pub num: u32,
    pub parts: Vec<Option<String>>,
}

impl View for SortKey {
    type V = (u32, Seq<Option<Seq<char>>>);

    open spec fn view(&self) -> (u32, Seq<Option<Seq<char>>>) {
        (self.num, self.parts.deep_view())
    }
}

/// `a` sorts strictly before `b`: `None` before any name, names as strings.
pub open spec fn opt_name_lt(a: Option<Seq<char>>, b: Option<Seq<char>>) -> bool {
    match (a, b) {
        (None, Some(_)) => true,
        (Some(x), Some(y)) => name_lt(x, y),
        _ => false,
    }
}

/// Lexicographic order of lists of optional names.
pub open spec fn parts_lt(a: Seq<Option<Seq<char>>>, b: Seq<Option<Seq<char>>>) -> bool
    decreases a.len(),
{
    if a.len() == 0 {
        b.len() > 0
    } else if b.len() == 0 {
        false
    } else if opt_name_lt(a[0], b[0]) {
        true
    } else if a[0] == b[0] {
        parts_lt(a.drop_first(), b.drop_first())
    } else {
        false
    }
}

/// Key `a` sorts strictly before key `b`.
pub open spec fn key_lt(a: (u32, Seq<Option<Seq<char>>>), b: (u32, Seq<Option<Seq<char>>>)) -> bool {
    a.0 < b.0 || (a.0 == b.0 && parts_lt(a.1, b.1))
}

/// Where an item of key `k` goes among `p` (sorted), searching from `i`:
/// before the first item whose key sorts after `k`.
pub open spec fn upper_at(p: Seq<((u32, Seq<Option<Seq<char>>>), int)>, k: (u32, Seq<Option<Seq<char>>>), i: int) -> int
    decreases p.len() - i,
{
    if i < 0 || i >= p.len() {
        p.len() as int
    } else if key_lt(k, p[i].0) {
        i
    } else {
        upper_at(p, k, i + 1)
    }
}

/// Keyed items in the order of their keys, items of equal keys in the order
/// they came: the stable sort `sort_by` performs.
pub open spec fn stable_sort(s: Seq<((u32, Seq<Option<Seq<char>>>), int)>) -> Seq<((u32, Seq<Option<Seq<char>>>), int)>
    decreases s.len(),
{
    if s.len() == 0 {
        s
    } else {
        let p = stable_sort(s.drop_last());
        p.insert(upper_at(p, s.last().0, 0), s.last())
    }
}

/// Each key with its position.
pub open spec fn indexed(keys: Seq<(u32, Seq<Option<Seq<char>>>)>) -> Seq<((u32, Seq<Option<Seq<char>>>), int)> {
    Seq::new(keys.len(), |i: int| (keys[i], i))
}

/// The positions of `keys` in the order a stable sort by key puts them.
pub open spec fn sorted_order(keys: Seq<(u32, Seq<Option<Seq<char>>>)>) -> Seq<int> {
    stable_sort(indexed(keys)).map_values(|p: ((u32, Seq<Option<Seq<char>>>), int)| p.1)
}

/// The views of a list of keys.
pub open spec fn keys_view(ks: Seq<SortKey>) -> Seq<(u32, Seq<Option<Seq<char>>>)> {
    ks.map_values(|k: SortKey| k@)
}

fn opt_lt(a: &Option<String>, b: &Option<String>) -> (r: bool)
    ensures
        r == opt_name_lt(a.deep_view(), b.deep_view()),
{
    match (a, b) {
        (None, Some(_)) => true,
        (Some(x), Some(y)) => str_lt(x.as_str(), y.as_str()),
        _ => false,
    }
}

fn opt_eq(a: &Option<String>, b: &Option<String>) -> (r: bool)
    ensures
        r == (a.deep_view() == b.deep_view()),
{
    match (a, b) {
        (None, None) => true,
        (Some(x), Some(y)) => str_eq(x.as_str(), y.as_str()),
        _ => false,
    }
}

/// Whether key `a` sorts strictly before key `b`.
pub fn key_less(a: &SortKey, b: &SortKey) -> (r: bool)
    ensures
        r == key_lt(a@, b@),
{
    if a.num != b.num {
        return a.num < b.num;
    }
    let ghost av = a.parts.deep_view();
    let ghost bv = b.parts.deep_view();
    let mut i: usize = 0;
    assert(av.subrange(0, av.len() as int) =~= av);
    assert(bv.subrange(0, bv.len() as int) =~= bv);
    while i < a.parts.len() && i < b.parts.len()
        invariant
            i <= a.parts.len(),
            i <= b.parts.len(),
            av == a.parts.deep_view(),
            bv == b.parts.deep_view(),
            a.num == b.num,
            parts_lt(av, bv) == parts_lt(av.subrange(i as int, av.len() as int), bv.subrange(i as int, bv.len() as int)),
        decreases a.parts.len() - i,
    {
        let ghost sa = av.subrange(i as int, av.len() as int);
        let ghost sb = bv.subrange(i as int, bv.len() as int);
        assert(sa[0] == av[i as int]);
        assert(sb[0] == bv[i as int]);
        assert(av[i as int] == a.parts@[i as int].deep_view());
        assert(bv[i as int] == b.parts@[i as int].deep_view());
        assert(av.len() == a.parts.len() && bv.len() == b.parts.len());
        assert(sa.len() > 0 && sb.len() > 0);
        if opt_lt(&a.parts[i], &b.parts[i]) {
            assert(parts_lt(sa, sb));
            return true;
        }
        if !opt_eq(&a.parts[i], &b.parts[i]) {
            assert(!parts_lt(sa, sb));
            return false;
        }
        assert(sa.drop_first() =~= av.subrange(i + 1, av.len() as int));
        assert(sb.drop_first() =~= bv.subrange(i + 1, bv.len() as int));
        i = i + 1;
    }
    i < b.parts.len()
}

/// The positions of `keys` in stably sorted order (see [`sorted_order`]).
pub fn sort_order(keys: &Vec<SortKey>) -> (r: Vec<usize>)
    ensures
        r@.map_values(|i: usize| i as int) == sorted_order(keys_view(keys@)),
{
    let ghost kv = keys_view(keys@);
    let ghost ix = indexed(kv);
    let mut out: Vec<usize> = Vec::new();
    let mut i: usize = 0;
    assert(ix.take(0) =~= Seq::<((u32, Seq<Option<Seq<char>>>), int)>::empty());
    while i < keys.len()
        invariant
            i <= keys.len(),
            kv == keys_view(keys@),
            ix == indexed(kv),
            out@.map_values(|j: usize| (kv[j as int], j as int)) == stable_sort(ix.take(i as int)),
            forall|q: int| 0 <= q < out.len() ==> out@[q] < i,
        decreases keys.len() - i,
    {
        let ghost p = stable_sort(ix.take(i as int));
        let ghost k = kv[i as int];
        assert(ix.take(i + 1).drop_last() =~= ix.take(i as int));
        assert(ix.take(i + 1).last() == (k, i as int));
        let mut u: usize = 0;
        while u < out.len() && !key_less(&keys[i], &keys[out[u]])
            invariant
                u <= out.len(),
                i < keys.len(),
                kv == keys_view(keys@),
                out@.map_values(|j: usize| (kv[j as int], j as int)) == p,
                forall|q: int| 0 <= q < out.len() ==> out@[q] < i,
                upper_at(p, k, 0) == upper_at(p, k, u as int),
                k == kv[i as int],
            decreases out.len() - u,
        {
            assert(p[u as int] == (kv[out@[u as int] as int], out@[u as int] as int));
            u = u + 1;
        }
        proof {
            if u < out.len() {
                assert(p[u as int] == (kv[out@[u as int] as int], out@[u as int] as int));
            }
        }
        out.insert(u, i);
        assert(out@.map_values(|j: usize| (kv[j as int], j as int)) =~= p.insert(u as int, (k, i as int)));
        i = i + 1;
    }
    assert(ix.take(keys.len() as int) =~= ix);
    assert(out@.map_values(|i: usize| i as int) =~= sorted_order(kv));
    out
}


proof fn lemma_stable_sort_items(s: Seq<((u32, Seq<Option<Seq<char>>>), int)>)
    ensures
        stable_sort(s).len() == s.len(),
        forall|q: int| 0 <= q < stable_sort(s).len() ==> s.contains(#[trigger] stable_sort(s)[q]),
        forall|q: int| 0 <= q < s.len() ==> stable_sort(s).contains(#[trigger] s[q]),
    decreases s.len(),
{
    if s.len() > 0 {
        lemma_stable_sort_items(s.drop_last());
        let p = stable_sort(s.drop_last());
        lemma_upper_at_bounds(p, s.last().0, 0);
        let u = upper_at(p, s.last().0, 0);
        assert forall|q: int| 0 <= q < s.len() implies stable_sort(s).contains(#[trigger] s[q]) by {
            let r = p.insert(u, s.last());
            if q == s.len() - 1 {
                assert(r[u] == s[q]);
            } else {
                assert(s.drop_last()[q] == s[q]);
                let w = choose|w: int| 0 <= w < p.len() && p[w] == s.drop_last()[q];
                if w < u {
                    assert(r[w] == p[w]);
                } else {
                    assert(r[w + 1] == p[w]);
                }
            }
        }
        assert forall|q: int| 0 <= q < stable_sort(s).len() implies s.contains(#[trigger] stable_sort(s)[q]) by {
            let r = p.insert(u, s.last());
            if q < u {
                assert(r[q] == p[q]);
                let k = choose|k: int| 0 <= k < s.drop_last().len() && s.drop_last()[k] == p[q];
                assert(s[k] == p[q]);
            } else if q == u {
                assert(s[s.len() - 1] == r[q]);
            } else {
                assert(r[q] == p[q - 1]);
                let k = choose|k: int| 0 <= k < s.drop_last().len() && s.drop_last()[k] == p[q - 1];
                assert(s[k] == p[q - 1]);
            }
        }
    }
}

proof fn lemma_upper_at_bounds(p: Seq<((u32, Seq<Option<Seq<char>>>), int)>, k: (u32, Seq<Option<Seq<char>>>), i: int)
    requires
        0 <= i <= p.len(),
    ensures
        i <= upper_at(p, k, i) <= p.len(),
    decreases p.len() - i,
{
    if i < p.len() && !key_lt(k, p[i].0) {
        lemma_upper_at_bounds(p, k, i + 1);
    }
}

/// The sorted order holds each position of `keys` (within range).
proof fn lemma_order_in_range(keys: Seq<(u32, Seq<Option<Seq<char>>>)>)
    ensures
        sorted_order(keys).len() == keys.len(),
        forall|q: int| 0 <= q < sorted_order(keys).len() ==> 0 <= #[trigger] sorted_order(keys)[q] < keys.len(),
{
    let ix = indexed(keys);
    lemma_stable_sort_items(ix);
    assert forall|q: int| 0 <= q < sorted_order(keys).len() implies 0 <= #[trigger] sorted_order(keys)[q] < keys.len() by {
        let e = stable_sort(ix)[q];
        let k = choose|k: int| 0 <= k < ix.len() && ix[k] == e;
    }
}

proof fn lemma_opt_lt_order(a: Option<Seq<char>>, b: Option<Seq<char>>, c: Option<Seq<char>>)
    ensures
        !opt_name_lt(a, a),
        opt_name_lt(a, b) && opt_name_lt(b, c) ==> opt_name_lt(a, c),
{
    if let Some(x) = a {
        lemma_lt_irreflexive(x);
    }
    if let (Some(x), Some(y), Some(z)) = (a, b, c) {
        if name_lt(x, y) && name_lt(y, z) {
            lemma_lt_transitive(x, y, z);
        }
    }
}

proof fn lemma_parts_lt_order(a: Seq<Option<Seq<char>>>, b: Seq<Option<Seq<char>>>, c: Seq<Option<Seq<char>>>)
    ensures
        !parts_lt(a, a),
        parts_lt(a, b) && parts_lt(b, c) ==> parts_lt(a, c),
    decreases a.len(),
{
    if a.len() > 0 {
        lemma_opt_lt_order(a[0], a[0], a[0]);
        lemma_parts_lt_order(a.drop_first(), a.drop_first(), a.drop_first());
        if b.len() > 0 && c.len() > 0 {
            lemma_opt_lt_order(a[0], b[0], c[0]);
            lemma_parts_lt_order(a.drop_first(), b.drop_first(), c.drop_first());
        }
    }
}

/// Sorting keys are ordered strictly: irreflexively, transitively and
/// asymmetrically.
pub proof fn lemma_key_lt_order(a: (u32, Seq<Option<Seq<char>>>), b: (u32, Seq<Option<Seq<char>>>), c: (u32, Seq<Option<Seq<char>>>))
    ensures
        !key_lt(a, a),
        key_lt(a, b) && key_lt(b, c) ==> key_lt(a, c),
        key_lt(a, b) ==> !key_lt(b, a),
{
    lemma_parts_lt_order(a.1, a.1, a.1);
    lemma_parts_lt_order(a.1, b.1, c.1);
    lemma_parts_lt_order(a.1, b.1, a.1);
}

/// Positions in `p` before the insertion point of `k` (from `i`) hold keys
/// that do not sort after `k`.
proof fn lemma_upper_at_before(p: Seq<((u32, Seq<Option<Seq<char>>>), int)>, k: (u32, Seq<Option<Seq<char>>>), i: int)
    requires
        0 <= i <= p.len(),
    ensures
        i <= upper_at(p, k, i) <= p.len(),
        forall|j: int| i <= j < upper_at(p, k, i) ==> !key_lt(k, #[trigger] p[j].0),
        upper_at(p, k, i) < p.len() ==> key_lt(k, p[upper_at(p, k, i)].0),
    decreases p.len() - i,
{
    if i < p.len() && !key_lt(k, p[i].0) {
        lemma_upper_at_before(p, k, i + 1);
    }
}

/// No key of `s` sorts before an earlier one.
pub open spec fn in_key_order(s: Seq<((u32, Seq<Option<Seq<char>>>), int)>) -> bool {
    forall|i: int, j: int| 0 <= i < j < s.len() ==> !key_lt((#[trigger] s[j]).0, (#[trigger] s[i]).0)
}

proof fn lemma_stable_sort_order(s: Seq<((u32, Seq<Option<Seq<char>>>), int)>)
    ensures
        in_key_order(stable_sort(s)),
        s.no_duplicates() ==> stable_sort(s).no_duplicates(),
    decreases s.len(),
{
    if s.len() > 0 {
        let init = s.drop_last();
        let x = s.last();
        lemma_stable_sort_order(init);
        lemma_stable_sort_items(init);
        let p = stable_sort(init);
        lemma_upper_at_before(p, x.0, 0);
        let u = upper_at(p, x.0, 0);
        let r = p.insert(u, x);
        assert(stable_sort(s) == r);
        assert forall|i: int, j: int| 0 <= i < j < r.len() implies !key_lt((#[trigger] r[j]).0, (#[trigger] r[i]).0) by {
            if j < u {
                assert(r[i] == p[i] && r[j] == p[j]);
            } else if i > u {
                assert(r[i] == p[i - 1] && r[j] == p[j - 1]);
            } else if j == u {
                assert(r[i] == p[i]);
            } else if i == u {
                assert(r[j] == p[j - 1]);
                lemma_key_lt_order(p[j - 1].0, x.0, p[u].0);
                if j - 1 > u {
                    lemma_key_lt_order(p[j - 1].0, x.0, p[u].0);
                }
                lemma_key_lt_order(x.0, p[u].0, p[u].0);
                if key_lt(p[j - 1].0, x.0) {
                    if j - 1 == u {
                        lemma_key_lt_order(x.0, p[u].0, x.0);
                    }
                }
            } else {
                assert(r[i] == p[i] && r[j] == p[j - 1]);
            }
        }
        if s.no_duplicates() {
            assert(!p.contains(x)) by {
                if p.contains(x) {
                    let q = choose|q: int| 0 <= q < p.len() && p[q] == x;
                    assert(init.contains(p[q]));
                    let w = choose|w: int| 0 <= w < init.len() && init[w] == x;
                    assert(s[w] == s[s.len() - 1]);
                }
            }
            assert(init.no_duplicates()) by {
                assert forall|i: int, j: int| 0 <= i < init.len() && 0 <= j < init.len() && i != j implies init[i] != init[j] by {
                    assert(init[i] == s[i] && init[j] == s[j]);
                }
            }
            assert forall|i: int, j: int| 0 <= i < r.len() && 0 <= j < r.len() && i != j implies r[i] != r[j] by {
                if i != u && j != u {
                    let pi = if i < u { i } else { i - 1 };
                    let pj = if j < u { j } else { j - 1 };
                    assert(r[i] == p[pi] && r[j] == p[pj]);
                } else if i == u {
                    let pj = if j < u { j } else { j - 1 };
                    assert(r[j] == p[pj]);
                } else {
                    let pi = if i < u { i } else { i - 1 };
                    assert(r[i] == p[pi]);
                }
            }
        }
    }
}

/// The order the compact form lists entries in names each entry exactly
/// once, and never lists an entry after one whose key sorts after its own.
pub proof fn lemma_sorted_order(keys: Seq<(u32, Seq<Option<Seq<char>>>)>)
    ensures
        sorted_order(keys).len() == keys.len(),
        sorted_order(keys).no_duplicates(),
        forall|q: int| 0 <= q < keys.len() ==> 0 <= #[trigger] sorted_order(keys)[q] < keys.len(),
        forall|i: int, j: int| 0 <= i < j < keys.len() ==> !key_lt(
            keys[#[trigger] sorted_order(keys)[j]],
            keys[#[trigger] sorted_order(keys)[i]],
        ),
        forall|i: int| 0 <= i < keys.len() ==> #[trigger] sorted_order(keys).contains(i),
{
    let ix = indexed(keys);
    lemma_order_in_range(keys);
    assert(ix.no_duplicates()) by {
        assert forall|i: int, j: int| 0 <= i < ix.len() && 0 <= j < ix.len() && i != j implies ix[i] != ix[j] by {
            assert(ix[i].1 == i && ix[j].1 == j);
        }
    }
    lemma_stable_sort_order(ix);
    lemma_stable_sort_items(ix);
    let r = stable_sort(ix);
    let o = sorted_order(keys);
    assert forall|q: int| 0 <= q < r.len() implies #[trigger] r[q] == ix[o[q]] by {
        let k = choose|k: int| 0 <= k < ix.len() && ix[k] == r[q];
    }
    assert forall|i: int, j: int| 0 <= i < o.len() && 0 <= j < o.len() && i != j implies o[i] != o[j] by {
        assert(r[i] == ix[o[i]] && r[j] == ix[o[j]]);
    }
    assert forall|i: int, j: int| 0 <= i < j < keys.len() implies !key_lt(
        keys[#[trigger] o[j]],
        keys[#[trigger] o[i]],
    ) by {
        assert(r[i] == ix[o[i]] && r[j] == ix[o[j]]);
    }
    assert forall|i: int| 0 <= i < keys.len() implies #[trigger] o.contains(i) by {
        assert(r.contains(ix[i]));
        let q = choose|q: int| 0 <= q < r.len() && r[q] == ix[i];
        assert(o[q] == i);
    }
}

// ---------------------------------------------------------------------------
// Text pieces
// ---------------------------------------------------------------------------

/// A line break.
pub open spec fn nl() -> Seq<char> {
    seq!['\n']
}

/// The texts of a list, one after the other.
pub open spec fn concat_all(ts: Seq<Seq<char>>) -> Seq<char>
    decreases ts.len(),
{
    if ts.len() == 0 {
        seq![]
    } else {
        concat_all(ts.drop_last()) + ts.last()
    }
}

/// ` rva=` and the offset, when there is one.
pub open spec fn rva_text(o: Option<Seq<char>>) -> Seq<char> {
    match o {
        Some(x) => " rva="@ + x,
        None => seq![],
    }
}

/// A line of `prefix` and the value, when there is one.
pub open spec fn opt_line(prefix: Seq<char>, o: Option<Seq<char>>) -> Seq<char> {
    match o {
        Some(x) => prefix + x + nl(),
        None => seq![],
    }
}

/// The line of a field: `prefix`, its name, and its full type.
pub open spec fn field_line(prefix: Seq<char>, f: FieldShape) -> Seq<char> {
    prefix + f.name + ": "@ + f.field_type.full + nl()
}

/// The lines of a list of fields.
pub open spec fn field_lines(prefix: Seq<char>, fs: Seq<FieldShape>) -> Seq<char> {
    concat_all(fs.map_values(|f: FieldShape| field_line(prefix, f)))
}

/// A type entry under `label`: its name and offset, its warning, its fields.
pub open spec fn type_entry_text(label: Seq<char>, e: EntryShape) -> Seq<char> {
    label + " "@ + e.name + rva_text(e.offset) + nl() + opt_line(label + " warn: "@, e.warn) + field_lines(
        label + " field "@,
        e.fields,
    )
}

/// A standalone model: its name and offset, its warning, its fields.
pub open spec fn model_text(m: EntryShape) -> Seq<char> {
    "model "@ + m.name + rva_text(m.offset) + nl() + opt_line("  warn: "@, m.warn) + field_lines("  field "@, m.fields)
}

/// A packet: its opcode, then its request and response types.
pub open spec fn packet_text(p: PacketEntry) -> Seq<char> {
    "packet opcode="@ + decimal_text(p.opcode as nat) + nl() + type_entry_text("  request"@, p.request@)
        + type_entry_text("  response"@, p.response@)
}

/// An optional type entry under `label`.
pub open spec fn opt_entry_text(label: Seq<char>, e: Option<TypeDescriptorEntry>) -> Seq<char> {
    match e {
        Some(x) => type_entry_text(label, x@),
        None => seq![],
    }
}

/// An event: its opcode, the attributes it has, then its request and
/// response types.
pub open spec fn event_text(e: EventEntry) -> Seq<char> {
    "event opcode="@ + decimal_text(e.opcode as nat) + nl() + opt_line("  kind: "@, e.kind.deep_view()) + opt_line(
        "  name: "@,
        e.name.deep_view(),
    ) + opt_line("  base_kind: "@, e.base_kind.deep_view()) + opt_line("  rva: "@, e.offset.deep_view())
        + opt_line("  warn: "@, e.warn.deep_view()) + opt_entry_text("  request"@, e.request) + opt_entry_text(
        "  response"@,
        e.response,
    )
}

/// The line of a variant under `label`: name, offset, field counts, tag.
pub open spec fn variant_line(label: Seq<char>, v: VariantShape) -> Seq<char> {
    label + " "@ + v.name + rva_text(v.offset) + " local_fields="@ + decimal_text(v.fields.len()) + " all_fields="@
        + decimal_text(v.all_fields.len()) + (match v.tag {
        Some(t) => " tag="@ + t,
        None => seq![],
    }) + nl()
}

/// The key of a name.
pub open spec fn name_key(n: Seq<char>) -> (u32, Seq<Option<Seq<char>>>) {
    (0, seq![Some(n)])
}

/// Names in ascending order (equal names kept).
pub open spec fn sorted_list(ns: Seq<Seq<char>>) -> Seq<Seq<char>> {
    sorted_order(ns.map_values(|n: Seq<char>| name_key(n))).map_values(|i: int| ns[i])
}

/// The lines of a list of variants, ordered by name.
pub open spec fn variants_text(label: Seq<char>, vs: Seq<VariantShape>) -> Seq<char> {
    concat_all(
        sorted_order(vs.map_values(|v: VariantShape| name_key(v.name))).map_values(|i: int| variant_line(label, vs[i])),
    )
}

/// A polymorphic group: its name, its root sources in ascending order, its
/// discriminator, its base's offset and field count, then its wire
/// variants and its RTTI subclasses.
pub open spec fn poly_text(m: PolymorphicModelEntry) -> Seq<char> {
    let g = m@;
    "polymorphic "@ + g.name + nl() + "  root_sources: "@ + join_seqs(sorted_list(g.root_sources), ", "@) + nl()
        + (match g.discriminator {
        Some((f, t)) => "  discriminator: "@ + f + ": "@ + t + nl(),
        None => seq![],
    }) + "  base"@ + rva_text(g.base_offset) + " fields="@ + decimal_text(g.base_fields.len()) + nl()
        + variants_text("  variant"@, g.variants) + variants_text("  rtti_subclass"@, g.rtti_subclasses)
}

/// The key of a packet: opcode, request name, response name.
pub open spec fn packet_key(p: PacketEntry) -> (u32, Seq<Option<Seq<char>>>) {
    (p.opcode, seq![Some(p.request.name@), Some(p.response.name@)])
}

/// The name of an optional type entry, empty when there is none.
pub open spec fn opt_entry_name(e: Option<TypeDescriptorEntry>) -> Seq<char> {
    match e {
        Some(x) => x.name@,
        None => seq![],
    }
}

/// The key of an event: opcode, name, request name, response name.
pub open spec fn event_key(e: EventEntry) -> (u32, Seq<Option<Seq<char>>>) {
    (e.opcode, seq![e.name.deep_view(), Some(opt_entry_name(e.request)), Some(opt_entry_name(e.response))])
}

/// The packets section: packets ordered by opcode, request and response name.
pub open spec fn packets_section(ps: Seq<PacketEntry>) -> Seq<char> {
    nl() + "Packets"@ + nl() + concat_all(
        sorted_order(ps.map_values(|p: PacketEntry| packet_key(p))).map_values(|i: int| packet_text(ps[i])),
    )
}

/// The events section: events ordered by opcode, name, request and
/// response name.
pub open spec fn events_section(es: Seq<EventEntry>) -> Seq<char> {
    nl() + "Events"@ + nl() + concat_all(
        sorted_order(es.map_values(|e: EventEntry| event_key(e))).map_values(|i: int| event_text(es[i])),
    )
}

/// The models section, ordered by name.
pub open spec fn models_section(ms: Seq<ModelEntry>) -> Seq<char> {
    nl() + "Models"@ + nl() + concat_all(
        sorted_order(ms.map_values(|m: ModelEntry| name_key(m.name@))).map_values(|i: int| model_text(ms[i]@)),
    )
}

/// The polymorphic groups section, ordered by name.
pub open spec fn polys_section(ps: Seq<PolymorphicModelEntry>) -> Seq<char> {
    nl() + "Polymorphic Models"@ + nl() + concat_all(
        sorted_order(ps.map_values(|p: PolymorphicModelEntry| name_key(p.name@))).map_values(
            |i: int| poly_text(ps[i]),
        ),
    )
}

/// The string enumeration values, in ascending order.
pub open spec fn enums_section(ss: Seq<Seq<char>>) -> Seq<char> {
    nl() + "String Enums"@ + nl() + concat_all(sorted_list(ss).map_values(|s: Seq<char>| "string_enum "@ + s + nl()))
}

/// The compact text of a dump: the version and build number, then the
/// packets, events, models, polymorphic groups and string enumerations.
pub open spec fn compact_text(d: DumpResult) -> Seq<char> {
    "app_version: "@ + d.options.version@ + nl() + "build_number: "@ + decimal_text(d.options.build as nat) + nl()
        + packets_section(d.packets@) + events_section(d.events@) + models_section(d.models@) + polys_section(
        d.polymorphic_models@,
    ) + enums_section(d.string_enums.deep_view())
}

proof fn lemma_concat_step(ts: Seq<Seq<char>>, k: int)
    requires
        0 <= k < ts.len(),
    ensures
        concat_all(ts.take(k + 1)) == concat_all(ts.take(k)) + ts[k],
{
    assert(ts.take(k + 1).drop_last() =~= ts.take(k));
}

fn push_line(out: &mut Vec<char>, s: &str)
    ensures
        final(out)@ == old(out)@ + s@ + nl(),
{
    append_str(out, s);
    out.push('\n');
    assert(final(out)@ =~= old(out)@ + s@ + nl());
}

fn push_decimal(out: &mut Vec<char>, n: u64)
    ensures
        final(out)@ == old(out)@ + decimal_text(n as nat),
{
    let d = decimal_chars(n);
    append(out, &d);
}

fn write_optional_rva(out: &mut Vec<char>, o: &Option<String>)
    ensures
        final(out)@ == old(out)@ + rva_text(o.deep_view()),
{
    match o {
        Some(x) => {
            append_str(out, " rva=");
            append_str(out, x.as_str());
            assert(final(out)@ =~= old(out)@ + rva_text(o.deep_view()));
        },
        None => {
            assert(final(out)@ =~= old(out)@ + rva_text(o.deep_view()));
        },
    }
}

fn write_optional_line(out: &mut Vec<char>, prefix: &[char], o: &Option<String>)
    ensures
        final(out)@ == old(out)@ + opt_line(prefix@, o.deep_view()),
{
    match o {
        Some(x) => {
            append(out, prefix);
            append_str(out, x.as_str());
            out.push('\n');
            assert(final(out)@ =~= old(out)@ + opt_line(prefix@, o.deep_view()));
        },
        None => {
            assert(final(out)@ =~= old(out)@ + opt_line(prefix@, o.deep_view()));
        },
    }
}

fn write_fields(out: &mut Vec<char>, prefix: &[char], fields: &Vec<ExtractedField>)
    ensures
        final(out)@ == old(out)@ + field_lines(prefix@, fields_view(fields@)),
{
    let ghost fs = fields_view(fields@);
    let ghost ts = fs.map_values(|f: FieldShape| field_line(prefix@, f));
    let mut k: usize = 0;
    assert(ts.take(0) =~= Seq::<Seq<char>>::empty());
    while k < fields.len()
        invariant
            k <= fields.len(),
            fs == fields_view(fields@),
            ts == fs.map_values(|f: FieldShape| field_line(prefix@, f)),
            out@ == old(out)@ + concat_all(ts.take(k as int)),
        decreases fields.len() - k,
    {
        proof {
            lemma_concat_step(ts, k as int);
        }
        let ghost before = out@;
        append(out, prefix);
        append_str(out, fields[k].name.as_str());
        append_str(out, ": ");
        append_str(out, fields[k].field_type.full.as_str());
        out.push('\n');
        assert(ts[k as int] == field_line(prefix@, fields[k as int]@));
        assert(out@ =~= before + ts[k as int]);
        k = k + 1;
    }
    assert(ts.take(fields.len() as int) =~= ts);
}

fn write_type_entry(out: &mut Vec<char>, label: &str, e: &TypeDescriptorEntry)
    ensures
        final(out)@ == old(out)@ + type_entry_text(label@, e@),
{
    let lv = chars_of(label);
    append(out, &lv);
    append_str(out, " ");
    append_str(out, e.name.as_str());
    write_optional_rva(out, &e.offset);
    out.push('\n');
    let mut warn_prefix = chars_of(label);
    append_str(&mut warn_prefix, " warn: ");
    write_optional_line(out, &warn_prefix, &e.warn);
    let mut field_prefix = chars_of(label);
    append_str(&mut field_prefix, " field ");
    write_fields(out, &field_prefix, &e.fields);
    assert(final(out)@ =~= old(out)@ + type_entry_text(label@, e@));
}


fn write_model_entry(out: &mut Vec<char>, m: &ModelEntry)
    ensures
        final(out)@ == old(out)@ + model_text(m@),
{
    append_str(out, "model ");
    append_str(out, m.name.as_str());
    write_optional_rva(out, &m.offset);
    out.push('\n');
    let wp = chars_of("  warn: ");
    write_optional_line(out, &wp, &m.warn);
    let fp = chars_of("  field ");
    write_fields(out, &fp, &m.fields);
    assert(final(out)@ =~= old(out)@ + model_text(m@));
}

fn write_packet(out: &mut Vec<char>, p: &PacketEntry)
    ensures
        final(out)@ == old(out)@ + packet_text(*p),
{
    append_str(out, "packet opcode=");
    push_decimal(out, p.opcode as u64);
    out.push('\n');
    write_type_entry(out, "  request", &p.request);
    write_type_entry(out, "  response", &p.response);
    assert(final(out)@ =~= old(out)@ + packet_text(*p));
}

fn write_optional_entry(out: &mut Vec<char>, label: &str, e: &Option<TypeDescriptorEntry>)
    ensures
        final(out)@ == old(out)@ + opt_entry_text(label@, *e),
{
    match e {
        Some(x) => write_type_entry(out, label, x),
        None => {
            assert(final(out)@ =~= old(out)@ + opt_entry_text(label@, *e));
        },
    }
}

fn write_event(out: &mut Vec<char>, e: &EventEntry)
    ensures
        final(out)@ == old(out)@ + event_text(*e),
{
    append_str(out, "event opcode=");
    push_decimal(out, e.opcode as u64);
    out.push('\n');
    let p1 = chars_of("  kind: ");
    write_optional_line(out, &p1, &e.kind);
    let p2 = chars_of("  name: ");
    write_optional_line(out, &p2, &e.name);
    let p3 = chars_of("  base_kind: ");
    write_optional_line(out, &p3, &e.base_kind);
    let p4 = chars_of("  rva: ");
    write_optional_line(out, &p4, &e.offset);
    let p5 = chars_of("  warn: ");
    write_optional_line(out, &p5, &e.warn);
    write_optional_entry(out, "  request", &e.request);
    write_optional_entry(out, "  response", &e.response);
    assert(final(out)@ =~= old(out)@ + event_text(*e));
}

fn write_variant(out: &mut Vec<char>, label: &str, v: &PolymorphicVariant)
    ensures
        final(out)@ == old(out)@ + variant_line(label@, v@),
{
    append_str(out, label);
    append_str(out, " ");
    append_str(out, v.name.as_str());
    write_optional_rva(out, &v.offset);
    append_str(out, " local_fields=");
    push_decimal(out, v.fields.len() as u64);
    append_str(out, " all_fields=");
    push_decimal(out, v.all_fields.len() as u64);
    match &v.tag {
        Some(t) => {
            append_str(out, " tag=");
            append_str(out, t.as_str());
        },
        None => {},
    }
    out.push('\n');
    assert(fields_view(v.fields@).len() == v.fields.len());
    assert(fields_view(v.all_fields@).len() == v.all_fields.len());
    assert(final(out)@ =~= old(out)@ + variant_line(label@, v@));
}

fn name_sort_key(n: &String) -> (r: SortKey)
    ensures
        r@ == name_key(n@),
{
    let mut parts: Vec<Option<String>> = Vec::new();
    parts.push(Some(n.clone()));
    let r = SortKey { num: 0, parts };
    assert(r.parts.deep_view() =~= seq![Some(n@)]);
    r
}

fn write_variants(out: &mut Vec<char>, label: &str, vs: &Vec<PolymorphicVariant>)
    ensures
        final(out)@ == old(out)@ + variants_text(label@, variants_view(vs@)),
{
    let ghost vv = variants_view(vs@);
    let mut keys: Vec<SortKey> = Vec::new();
    let mut i: usize = 0;
    while i < vs.len()
        invariant
            i <= vs.len(),
            vv == variants_view(vs@),
            keys_view(keys@) == vv.take(i as int).map_values(|v: VariantShape| name_key(v.name)),
        decreases vs.len() - i,
    {
        let k = name_sort_key(&vs[i].name);
        let ghost before = keys_view(keys@);
        keys.push(k);
        assert(vv[i as int] == vs@[i as int]@);
        assert(keys_view(keys@) =~= before.push(name_key(vv[i as int].name)));
        assert(vv.take(i + 1) =~= vv.take(i as int).push(vv[i as int]));
        assert(keys_view(keys@) =~= vv.take(i + 1).map_values(|v: VariantShape| name_key(v.name)));
        i = i + 1;
    }
    assert(vv.take(vs.len() as int) =~= vv);
    let order = sort_order(&keys);
    let ghost ord = sorted_order(vv.map_values(|v: VariantShape| name_key(v.name)));
    let ghost ts = ord.map_values(|i: int| variant_line(label@, vv[i]));
    proof {
        lemma_order_in_range(keys_view(keys@));
    }
    let mut k: usize = 0;
    assert(ts.take(0) =~= Seq::<Seq<char>>::empty());
    while k < order.len()
        invariant
            k <= order.len(),
            vv == variants_view(vs@),
            order@.map_values(|j: usize| j as int) == ord,
            ord.len() == vv.len(),
            forall|q: int| 0 <= q < ord.len() ==> 0 <= #[trigger] ord[q] < vv.len(),
            ts == ord.map_values(|i: int| variant_line(label@, vv[i])),
            out@ == old(out)@ + concat_all(ts.take(k as int)),
        decreases order.len() - k,
    {
        proof {
            lemma_concat_step(ts, k as int);
        }
        assert(ord[k as int] == order@[k as int] as int);
        let j = order[k];
        write_variant(out, label, &vs[j]);
        k = k + 1;
    }
    assert(ts.take(order.len() as int) =~= ts);
}


/// Strings in ascending order (see [`sorted_list`]).
fn sorted_values(v: &Vec<String>) -> (r: Vec<String>)
    ensures
        r.deep_view() == sorted_list(v.deep_view()),
{
    let ghost vv = v.deep_view();
    let mut keys: Vec<SortKey> = Vec::new();
    let mut i: usize = 0;
    while i < v.len()
        invariant
            i <= v.len(),
            vv == v.deep_view(),
            keys_view(keys@) == vv.take(i as int).map_values(|n: Seq<char>| name_key(n)),
        decreases v.len() - i,
    {
        let k = name_sort_key(&v[i]);
        let ghost before = keys_view(keys@);
        keys.push(k);
        assert(keys_view(keys@) =~= before.push(name_key(vv[i as int])));
        assert(vv.take(i + 1) =~= vv.take(i as int).push(vv[i as int]));
        assert(keys_view(keys@) =~= vv.take(i + 1).map_values(|n: Seq<char>| name_key(n)));
        i = i + 1;
    }
    assert(vv.take(v.len() as int) =~= vv);
    let order = sort_order(&keys);
    let ghost ord = sorted_order(vv.map_values(|n: Seq<char>| name_key(n)));
    proof {
        lemma_order_in_range(keys_view(keys@));
    }
    let mut out: Vec<String> = Vec::new();
    let mut k: usize = 0;
    while k < order.len()
        invariant
            k <= order.len(),
            vv == v.deep_view(),
            order@.map_values(|j: usize| j as int) == ord,
            ord.len() == vv.len(),
            forall|q: int| 0 <= q < ord.len() ==> 0 <= #[trigger] ord[q] < vv.len(),
            out.deep_view() == ord.take(k as int).map_values(|i: int| vv[i]),
        decreases order.len() - k,
    {
        assert(ord[k as int] == order@[k as int] as int);
        let j = order[k];
        let ghost before = out.deep_view();
        out.push(v[j].clone());
        assert(out.deep_view() =~= before.push(vv[ord[k as int]]));
        assert(ord.take(k + 1) =~= ord.take(k as int).push(ord[k as int]));
        assert(out.deep_view() =~= ord.take(k + 1).map_values(|i: int| vv[i]));
        k = k + 1;
    }
    assert(ord.take(order.len() as int) =~= ord);
    out
}

#[verifier::rlimit(60)]
fn write_polymorphic_model(out: &mut Vec<char>, m: &PolymorphicModelEntry)
    ensures
        final(out)@ == old(out)@ + poly_text(*m),
{
    append_str(out, "polymorphic ");
    append_str(out, m.name.as_str());
    out.push('\n');
    append_str(out, "  root_sources: ");
    let sources = sorted_values(&m.root_sources);
    let mut parts: Vec<Vec<char>> = Vec::new();
    let mut i: usize = 0;
    while i < sources.len()
        invariant
            i <= sources.len(),
            parts.deep_view() == sources.deep_view().take(i as int),
        decreases sources.len() - i,
    {
        let c = chars_of(sources[i].as_str());
        crate::text::push_chars(&mut parts, c);
        assert(sources.deep_view().take(i + 1) =~= sources.deep_view().take(i as int).push(sources.deep_view()[i as int]));
        i = i + 1;
    }
    assert(sources.deep_view().take(sources.len() as int) =~= sources.deep_view());
    let sep = chars_of(", ");
    let joined = join(&parts, &sep);
    append(out, &joined);
    out.push('\n');
    match &m.discriminator {
        Some(d) => {
            append_str(out, "  discriminator: ");
            append_str(out, d.field.as_str());
            append_str(out, ": ");
            append_str(out, d.value_type.as_str());
            out.push('\n');
        },
        None => {},
    }
    append_str(out, "  base");
    write_optional_rva(out, &m.base.offset);
    append_str(out, " fields=");
    push_decimal(out, m.base.fields.len() as u64);
    out.push('\n');
    assert(fields_view(m.base.fields@).len() == m.base.fields.len());
    let ghost mid = out@;
    write_variants(out, "  variant", &m.variants);
    write_variants(out, "  rtti_subclass", &m.rtti_subclasses);
    assert(final(out)@ =~= old(out)@ + poly_text(*m));
}

fn write_packets(out: &mut Vec<char>, ps: &Vec<PacketEntry>)
    ensures
        final(out)@ == old(out)@ + packets_section(ps@),
{
    let ghost pv = ps@;
    out.push('\n');
    push_line(out, "Packets");
    let ghost start = out@;
    let mut keys: Vec<SortKey> = Vec::new();
    let mut i: usize = 0;
    while i < ps.len()
        invariant
            i <= ps.len(),
            pv == ps@,
            keys_view(keys@) == pv.take(i as int).map_values(|p: PacketEntry| packet_key(p)),
        decreases ps.len() - i,
    {
        let mut parts: Vec<Option<String>> = Vec::new();
        parts.push(Some(ps[i].request.name.clone()));
        parts.push(Some(ps[i].response.name.clone()));
        let k = SortKey { num: ps[i].opcode, parts };
        assert(k@ =~= packet_key(pv[i as int]));
        let ghost before = keys_view(keys@);
        keys.push(k);
        assert(keys_view(keys@) =~= before.push(packet_key(pv[i as int])));
        assert(pv.take(i + 1) =~= pv.take(i as int).push(pv[i as int]));
        assert(keys_view(keys@) =~= pv.take(i + 1).map_values(|p: PacketEntry| packet_key(p)));
        i = i + 1;
    }
    assert(pv.take(ps.len() as int) =~= pv);
    let order = sort_order(&keys);
    let ghost ord = sorted_order(pv.map_values(|p: PacketEntry| packet_key(p)));
    let ghost ts = ord.map_values(|i: int| packet_text(pv[i]));
    proof {
        lemma_order_in_range(keys_view(keys@));
    }
    let mut k: usize = 0;
    assert(ts.take(0) =~= Seq::<Seq<char>>::empty());
    while k < order.len()
        invariant
            k <= order.len(),
            pv == ps@,
            order@.map_values(|j: usize| j as int) == ord,
            ord.len() == pv.len(),
            forall|q: int| 0 <= q < ord.len() ==> 0 <= #[trigger] ord[q] < pv.len(),
            ts == ord.map_values(|i: int| packet_text(pv[i])),
            out@ == start + concat_all(ts.take(k as int)),
        decreases order.len() - k,
    {
        proof {
            lemma_concat_step(ts, k as int);
        }
        assert(ord[k as int] == order@[k as int] as int);
        let j = order[k];
        write_packet(out, &ps[j]);
        k = k + 1;
    }
    assert(ts.take(order.len() as int) =~= ts);
    assert(final(out)@ =~= old(out)@ + packets_section(ps@));
}

fn option_entry_name(e: &Option<TypeDescriptorEntry>) -> (r: String)
    ensures
        r@ == opt_entry_name(*e),
{
    match e {
        Some(x) => x.name.clone(),
        None => String::new(),
    }
}

fn write_events(out: &mut Vec<char>, es: &Vec<EventEntry>)
    ensures
        final(out)@ == old(out)@ + events_section(es@),
{
    let ghost ev = es@;
    out.push('\n');
    push_line(out, "Events");
    let ghost start = out@;
    let mut keys: Vec<SortKey> = Vec::new();
    let mut i: usize = 0;
    while i < es.len()
        invariant
            i <= es.len(),
            ev == es@,
            keys_view(keys@) == ev.take(i as int).map_values(|e: EventEntry| event_key(e)),
        decreases es.len() - i,
    {
        let mut parts: Vec<Option<String>> = Vec::new();
        parts.push(crate::extractor::copy_opt_string(&es[i].name));
        parts.push(Some(option_entry_name(&es[i].request)));
        parts.push(Some(option_entry_name(&es[i].response)));
        let k = SortKey { num: es[i].opcode, parts };
        assert(k@ =~= event_key(ev[i as int]));
        let ghost before = keys_view(keys@);
        keys.push(k);
        assert(keys_view(keys@) =~= before.push(event_key(ev[i as int])));
        assert(ev.take(i + 1) =~= ev.take(i as int).push(ev[i as int]));
        assert(keys_view(keys@) =~= ev.take(i + 1).map_values(|e: EventEntry| event_key(e)));
        i = i + 1;
    }
    assert(ev.take(es.len() as int) =~= ev);
    let order = sort_order(&keys);
    let ghost ord = sorted_order(ev.map_values(|e: EventEntry| event_key(e)));
    let ghost ts = ord.map_values(|i: int| event_text(ev[i]));
    proof {
        lemma_order_in_range(keys_view(keys@));
    }
    let mut k: usize = 0;
    assert(ts.take(0) =~= Seq::<Seq<char>>::empty());
    while k < order.len()
        invariant
            k <= order.len(),
            ev == es@,
            order@.map_values(|j: usize| j as int) == ord,
            ord.len() == ev.len(),
            forall|q: int| 0 <= q < ord.len() ==> 0 <= #[trigger] ord[q] < ev.len(),
            ts == ord.map_values(|i: int| event_text(ev[i])),
            out@ == start + concat_all(ts.take(k as int)),
        decreases order.len() - k,
    {
        proof {
            lemma_concat_step(ts, k as int);
        }
        assert(ord[k as int] == order@[k as int] as int);
        let j = order[k];
        write_event(out, &es[j]);
        k = k + 1;
    }
    assert(ts.take(order.len() as int) =~= ts);
    assert(final(out)@ =~= old(out)@ + events_section(es@));
}

fn write_models(out: &mut Vec<char>, ms: &Vec<ModelEntry>)
    ensures
        final(out)@ == old(out)@ + models_section(ms@),
{
    let ghost mv = ms@;
    out.push('\n');
    push_line(out, "Models");
    let ghost start = out@;
    let mut keys: Vec<SortKey> = Vec::new();
    let mut i: usize = 0;
    while i < ms.len()
        invariant
            i <= ms.len(),
            mv == ms@,
            keys_view(keys@) == mv.take(i as int).map_values(|m: ModelEntry| name_key(m.name@)),
        decreases ms.len() - i,
    {
        let k = name_sort_key(&ms[i].name);
        let ghost before = keys_view(keys@);
        keys.push(k);
        assert(keys_view(keys@) =~= before.push(name_key(mv[i as int].name@)));
        assert(mv.take(i + 1) =~= mv.take(i as int).push(mv[i as int]));
        assert(keys_view(keys@) =~= mv.take(i + 1).map_values(|m: ModelEntry| name_key(m.name@)));
        i = i + 1;
    }
    assert(mv.take(ms.len() as int) =~= mv);
    let order = sort_order(&keys);
    let ghost ord = sorted_order(mv.map_values(|m: ModelEntry| name_key(m.name@)));
    let ghost ts = ord.map_values(|i: int| model_text(mv[i]@));
    proof {
        lemma_order_in_range(keys_view(keys@));
    }
    let mut k: usize = 0;
    assert(ts.take(0) =~= Seq::<Seq<char>>::empty());
    while k < order.len()
        invariant
            k <= order.len(),
            mv == ms@,
            order@.map_values(|j: usize| j as int) == ord,
            ord.len() == mv.len(),
            forall|q: int| 0 <= q < ord.len() ==> 0 <= #[trigger] ord[q] < mv.len(),
            ts == ord.map_values(|i: int| model_text(mv[i]@)),
            out@ == start + concat_all(ts.take(k as int)),
        decreases order.len() - k,
    {
        proof {
            lemma_concat_step(ts, k as int);
        }
        assert(ord[k as int] == order@[k as int] as int);
        let j = order[k];
        write_model_entry(out, &ms[j]);
        k = k + 1;
    }
    assert(ts.take(order.len() as int) =~= ts);
    assert(final(out)@ =~= old(out)@ + models_section(ms@));
}

#[verifier::rlimit(40)]
fn write_polymorphic_models(out: &mut Vec<char>, ps: &Vec<PolymorphicModelEntry>)
    ensures
        final(out)@ == old(out)@ + polys_section(ps@),
{
    let ghost pv = ps@;
    out.push('\n');
    push_line(out, "Polymorphic Models");
    let ghost start = out@;
    let mut keys: Vec<SortKey> = Vec::new();
    let mut i: usize = 0;
    while i < ps.len()
        invariant
            i <= ps.len(),
            pv == ps@,
            keys_view(keys@) == pv.take(i as int).map_values(|p: PolymorphicModelEntry| name_key(p.name@)),
        decreases ps.len() - i,
    {
        let k = name_sort_key(&ps[i].name);
        let ghost before = keys_view(keys@);
        keys.push(k);
        assert(keys_view(keys@) =~= before.push(name_key(pv[i as int].name@)));
        assert(pv.take(i + 1) =~= pv.take(i as int).push(pv[i as int]));
        assert(keys_view(keys@) =~= pv.take(i + 1).map_values(|p: PolymorphicModelEntry| name_key(p.name@)));
        i = i + 1;
    }
    assert(pv.take(ps.len() as int) =~= pv);
    let order = sort_order(&keys);
    let ghost ord = sorted_order(pv.map_values(|p: PolymorphicModelEntry| name_key(p.name@)));
    let ghost ts = ord.map_values(|i: int| poly_text(pv[i]));
    proof {
        lemma_order_in_range(keys_view(keys@));
    }
    let mut k: usize = 0;
    assert(ts.take(0) =~= Seq::<Seq<char>>::empty());
    while k < order.len()
        invariant
            k <= order.len(),
            pv == ps@,
            order@.map_values(|j: usize| j as int) == ord,
            ord.len() == pv.len(),
            forall|q: int| 0 <= q < ord.len() ==> 0 <= #[trigger] ord[q] < pv.len(),
            ts == ord.map_values(|i: int| poly_text(pv[i])),
            out@ == start + concat_all(ts.take(k as int)),
        decreases order.len() - k,
    {
        proof {
            lemma_concat_step(ts, k as int);
        }
        assert(ord[k as int] == order@[k as int] as int);
        let j = order[k];
        write_polymorphic_model(out, &ps[j]);
        k = k + 1;
    }
    assert(ts.take(order.len() as int) =~= ts);
    assert(final(out)@ =~= old(out)@ + polys_section(ps@));
}

fn write_string_enums(out: &mut Vec<char>, ss: &Vec<String>)
    ensures
        final(out)@ == old(out)@ + enums_section(ss.deep_view()),
{
    out.push('\n');
    push_line(out, "String Enums");
    let ghost start = out@;
    let sorted = sorted_values(ss);
    let ghost sv = sorted.deep_view();
    let ghost ts = sv.map_values(|s: Seq<char>| "string_enum "@ + s + nl());
    let mut k: usize = 0;
    assert(ts.take(0) =~= Seq::<Seq<char>>::empty());
    while k < sorted.len()
        invariant
            k <= sorted.len(),
            sv == sorted.deep_view(),
            ts == sv.map_values(|s: Seq<char>| "string_enum "@ + s + nl()),
            out@ == start + concat_all(ts.take(k as int)),
        decreases sorted.len() - k,
    {
        proof {
            lemma_concat_step(ts, k as int);
        }
        let ghost before = out@;
        append_str(out, "string_enum ");
        append_str(out, sorted[k].as_str());
        out.push('\n');
        assert(out@ =~= before + ts[k as int]);
        k = k + 1;
    }
    assert(ts.take(sorted.len() as int) =~= ts);
    assert(final(out)@ =~= old(out)@ + enums_section(ss.deep_view()));
}

/// The compact text of a dump (see [`compact_text`]).
pub fn format_compact_dump(dump: &DumpResult) -> (r: String)
    ensures
        r@ == compact_text(*dump),
{
    let mut out: Vec<char> = Vec::new();
    append_str(&mut out, "app_version: ");
    append_str(&mut out, dump.options.version.as_str());
    out.push('\n');
    append_str(&mut out, "build_number: ");
    push_decimal(&mut out, dump.options.build as u64);
    out.push('\n');
    write_packets(&mut out, &dump.packets);
    write_events(&mut out, &dump.events);
    write_models(&mut out, &dump.models);
    write_polymorphic_models(&mut out, &dump.polymorphic_models);
    write_string_enums(&mut out, &dump.string_enums);
    assert(out@ =~= compact_text(*dump));
    string_of(&out)
}

} // verus!
