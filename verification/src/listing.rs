//! The order in which the compact form lists the items of a dump.
use vstd::prelude::*;
use crate::names::lemma_lt_total;
use crate::compact::{
    parts_lt, key_lt, sorted_order, lemma_sorted_order, lemma_key_lt_order, packet_key, event_key, name_key,
    packet_text, event_text, model_text, poly_text, sorted_list, packets_section, events_section,
    models_section, polys_section, enums_section, compact_text,
};
use crate::dumper::{DumpResult, PacketEntry, EventEntry, ModelEntry, PolymorphicModelEntry};

verus! {

proof fn lemma_parts_total(a: Seq<Option<Seq<char>>>, b: Seq<Option<Seq<char>>>)
    ensures
        a == b || parts_lt(a, b) || parts_lt(b, a),
    decreases a.len(),
{
    if a.len() > 0 && b.len() > 0 {
        match (a[0], b[0]) {
            (Some(x), Some(y)) => lemma_lt_total(x, y),
            _ => {},
        }
        if a[0] == b[0] {
            lemma_parts_total(a.drop_first(), b.drop_first());
            if a.drop_first() == b.drop_first() {
                assert(a =~= seq![a[0]] + a.drop_first());
                assert(b =~= seq![b[0]] + b.drop_first());
            }
        }
    } else if a.len() == 0 && b.len() == 0 {
        assert(a =~= b);
    }
}

proof fn lemma_key_total(a: (u32, Seq<Option<Seq<char>>>), b: (u32, Seq<Option<Seq<char>>>))
    ensures
        a == b || key_lt(a, b) || key_lt(b, a),
{
    lemma_parts_total(a.1, b.1);
}

/// The items of `xs` in the order the compact form lists them: by key,
/// stably.
pub open spec fn sorted_items<T>(xs: Seq<T>, key: spec_fn(T) -> (u32, Seq<Option<Seq<char>>>)) -> Seq<T> {
    sorted_order(xs.map_values(key)).map_values(|i: int| xs[i])
}

/// No two items of `xs` share a key.
pub open spec fn distinct_keys<T>(xs: Seq<T>, key: spec_fn(T) -> (u32, Seq<Option<Seq<char>>>)) -> bool {
    forall|i: int, j: int| 0 <= i < j < xs.len() ==> key(#[trigger] xs[i]) != key(#[trigger] xs[j])
}

/// Each item sorts strictly before the next.
pub open spec fn strictly_keyed<T>(xs: Seq<T>, key: spec_fn(T) -> (u32, Seq<Option<Seq<char>>>)) -> bool {
    forall|i: int, j: int| 0 <= i < j < xs.len() ==> key_lt(key(#[trigger] xs[i]), key(#[trigger] xs[j]))
}

proof fn lemma_sorted_items<T>(xs: Seq<T>, key: spec_fn(T) -> (u32, Seq<Option<Seq<char>>>))
    requires
        distinct_keys(xs, key),
    ensures
        strictly_keyed(sorted_items(xs, key), key),
        forall|x: T| sorted_items(xs, key).contains(x) <==> xs.contains(x),
{
    let ks = xs.map_values(key);
    lemma_sorted_order(ks);
    let o = sorted_order(ks);
    let ys = sorted_items(xs, key);
    assert forall|i: int, j: int| 0 <= i < j < ys.len() implies key_lt(key(#[trigger] ys[i]), key(#[trigger] ys[j])) by {
        assert(ys[i] == xs[o[i]] && ys[j] == xs[o[j]]);
        assert(ks[o[i]] == key(xs[o[i]]) && ks[o[j]] == key(xs[o[j]]));
        lemma_key_total(ks[o[i]], ks[o[j]]);
        if o[i] < o[j] {
            assert(key(xs[o[i]]) != key(xs[o[j]]));
        } else {
            assert(o[i] != o[j]);
            assert(key(xs[o[j]]) != key(xs[o[i]]));
        }
    }
    assert forall|x: T| ys.contains(x) <==> xs.contains(x) by {
        if ys.contains(x) {
            let q = choose|q: int| 0 <= q < ys.len() && ys[q] == x;
            assert(xs[o[q]] == x);
        }
        if xs.contains(x) {
            let i = choose|i: int| 0 <= i < xs.len() && xs[i] == x;
            assert(o.contains(i));
            let q = choose|q: int| 0 <= q < o.len() && o[q] == i;
            assert(ys[q] == x);
        }
    }
}

proof fn lemma_strictly_keyed_unique<T>(a: Seq<T>, b: Seq<T>, key: spec_fn(T) -> (u32, Seq<Option<Seq<char>>>))
    requires
        strictly_keyed(a, key),
        strictly_keyed(b, key),
        forall|x: T| a.contains(x) <==> b.contains(x),
    ensures
        a == b,
    decreases a.len(),
{
    if a.len() == 0 {
        if b.len() > 0 {
            assert(b.contains(b[0]));
        }
        assert(a =~= b);
    } else {
        assert(a.contains(a.last()));
        if b.len() == 0 {
            assert(false);
        }
        assert(b.contains(b.last()));
        let j = choose|j: int| 0 <= j < b.len() && b[j] == a.last();
        let k = choose|k: int| 0 <= k < a.len() && a[k] == b.last();
        if k < a.len() - 1 {
            assert(key_lt(key(a[k]), key(a[a.len() - 1])));
            if j < b.len() - 1 {
                assert(key_lt(key(b[j]), key(b[b.len() - 1])));
                lemma_key_lt_order(key(a[k]), key(a.last()), key(a[k]));
            } else {
                lemma_key_lt_order(key(a[k]), key(a.last()), key(a[k]));
            }
        }
        assert(k == a.len() - 1);
        assert(a.last() == b.last());
        let a1 = a.drop_last();
        let b1 = b.drop_last();
        assert forall|x: T| a1.contains(x) <==> b1.contains(x) by {
            if a1.contains(x) {
                let p = choose|p: int| 0 <= p < a1.len() && a1[p] == x;
                assert(a.contains(x));
                let q = choose|q: int| 0 <= q < b.len() && b[q] == x;
                if q == b.len() - 1 {
                    assert(key_lt(key(a[p]), key(a[a.len() - 1])));
                    lemma_key_lt_order(key(x), key(x), key(x));
                }
                assert(b1[q] == x);
            }
            if b1.contains(x) {
                let q = choose|q: int| 0 <= q < b1.len() && b1[q] == x;
                assert(b.contains(x));
                let p = choose|p: int| 0 <= p < a.len() && a[p] == x;
                if p == a.len() - 1 {
                    assert(key_lt(key(b[q]), key(b[b.len() - 1])));
                    lemma_key_lt_order(key(x), key(x), key(x));
                }
                assert(a1[p] == x);
            }
        }
        assert(strictly_keyed(a1, key)) by {
            assert forall|i: int, j2: int| 0 <= i < j2 < a1.len() implies key_lt(key(#[trigger] a1[i]), key(#[trigger] a1[j2])) by {
                assert(a1[i] == a[i] && a1[j2] == a[j2]);
            }
        }
        assert(strictly_keyed(b1, key)) by {
            assert forall|i: int, j2: int| 0 <= i < j2 < b1.len() implies key_lt(key(#[trigger] b1[i]), key(#[trigger] b1[j2])) by {
                assert(b1[i] == b[i] && b1[j2] == b[j2]);
            }
        }
        lemma_strictly_keyed_unique(a1, b1, key);
        assert(a =~= a1.push(a.last()));
        assert(b =~= b1.push(b.last()));
    }
}

/// Two lists holding the same items, no two of which share a key, are
/// listed by the compact form in the same order: the order of a list does
/// not show in the compact text.
pub proof fn lemma_listing_order_free<T>(xs: Seq<T>, ys: Seq<T>, key: spec_fn(T) -> (u32, Seq<Option<Seq<char>>>))
    requires
        distinct_keys(xs, key),
        distinct_keys(ys, key),
        forall|x: T| xs.contains(x) <==> ys.contains(x),
    ensures
        sorted_items(xs, key) == sorted_items(ys, key),
{
    lemma_sorted_items(xs, key);
    lemma_sorted_items(ys, key);
    assert forall|x: T| sorted_items(xs, key).contains(x) <==> sorted_items(ys, key).contains(x) by {
        assert(sorted_items(xs, key).contains(x) <==> xs.contains(x));
        assert(sorted_items(ys, key).contains(x) <==> ys.contains(x));
    }
    lemma_strictly_keyed_unique(sorted_items(xs, key), sorted_items(ys, key), key);
}

proof fn lemma_packets_order_free(p1: Seq<PacketEntry>, p2: Seq<PacketEntry>)
    requires
        distinct_keys(p1, |p: PacketEntry| packet_key(p)),
        distinct_keys(p2, |p: PacketEntry| packet_key(p)),
        forall|x: PacketEntry| p1.contains(x) <==> p2.contains(x),
    ensures
        packets_section(p1) == packets_section(p2),
{
    let pk = |p: PacketEntry| packet_key(p);
    let pt = |p: PacketEntry| packet_text(p);
    lemma_listing_order_free(p1, p2, pk);
    let t1 = sorted_order(p1.map_values(|p: PacketEntry| packet_key(p))).map_values(|i: int| packet_text(p1[i]));
    let t2 = sorted_order(p2.map_values(|p: PacketEntry| packet_key(p))).map_values(|i: int| packet_text(p2[i]));
    lemma_sorted_order(p1.map_values(pk));
    lemma_sorted_order(p2.map_values(pk));
    assert(t1 =~= sorted_items(p1, pk).map_values(pt));
    assert(t2 =~= sorted_items(p2, pk).map_values(pt));
}

proof fn lemma_events_order_free(e1: Seq<EventEntry>, e2: Seq<EventEntry>)
    requires
        distinct_keys(e1, |e: EventEntry| event_key(e)),
        distinct_keys(e2, |e: EventEntry| event_key(e)),
        forall|x: EventEntry| e1.contains(x) <==> e2.contains(x),
    ensures
        events_section(e1) == events_section(e2),
{
    let ek = |e: EventEntry| event_key(e);
    let et = |e: EventEntry| event_text(e);
    lemma_listing_order_free(e1, e2, ek);
    let t1 = sorted_order(e1.map_values(|e: EventEntry| event_key(e))).map_values(|i: int| event_text(e1[i]));
    let t2 = sorted_order(e2.map_values(|e: EventEntry| event_key(e))).map_values(|i: int| event_text(e2[i]));
    lemma_sorted_order(e1.map_values(ek));
    lemma_sorted_order(e2.map_values(ek));
    assert(t1 =~= sorted_items(e1, ek).map_values(et));
    assert(t2 =~= sorted_items(e2, ek).map_values(et));
}

proof fn lemma_models_order_free(m1: Seq<ModelEntry>, m2: Seq<ModelEntry>)
    requires
        distinct_keys(m1, |m: ModelEntry| name_key(m.name@)),
        distinct_keys(m2, |m: ModelEntry| name_key(m.name@)),
        forall|x: ModelEntry| m1.contains(x) <==> m2.contains(x),
    ensures
        models_section(m1) == models_section(m2),
{
    let mk = |m: ModelEntry| name_key(m.name@);
    let mt = |m: ModelEntry| model_text(m@);
    lemma_listing_order_free(m1, m2, mk);
    let t1 = sorted_order(m1.map_values(|m: ModelEntry| name_key(m.name@))).map_values(|i: int| model_text(m1[i]@));
    let t2 = sorted_order(m2.map_values(|m: ModelEntry| name_key(m.name@))).map_values(|i: int| model_text(m2[i]@));
    lemma_sorted_order(m1.map_values(mk));
    lemma_sorted_order(m2.map_values(mk));
    assert(t1 =~= sorted_items(m1, mk).map_values(mt));
    assert(t2 =~= sorted_items(m2, mk).map_values(mt));
}

proof fn lemma_polys_order_free(g1: Seq<PolymorphicModelEntry>, g2: Seq<PolymorphicModelEntry>)
    requires
        distinct_keys(g1, |m: PolymorphicModelEntry| name_key(m.name@)),
        distinct_keys(g2, |m: PolymorphicModelEntry| name_key(m.name@)),
        forall|x: PolymorphicModelEntry| g1.contains(x) <==> g2.contains(x),
    ensures
        polys_section(g1) == polys_section(g2),
{
    let gk = |m: PolymorphicModelEntry| name_key(m.name@);
    let gt = |m: PolymorphicModelEntry| poly_text(m);
    lemma_listing_order_free(g1, g2, gk);
    let t1 = sorted_order(g1.map_values(|m: PolymorphicModelEntry| name_key(m.name@))).map_values(|i: int| poly_text(g1[i]));
    let t2 = sorted_order(g2.map_values(|m: PolymorphicModelEntry| name_key(m.name@))).map_values(|i: int| poly_text(g2[i]));
    lemma_sorted_order(g1.map_values(gk));
    lemma_sorted_order(g2.map_values(gk));
    assert(t1 =~= sorted_items(g1, gk).map_values(gt));
    assert(t2 =~= sorted_items(g2, gk).map_values(gt));
}

proof fn lemma_enums_order_free(s1: Seq<Seq<char>>, s2: Seq<Seq<char>>)
    requires
        distinct_keys(s1, |n: Seq<char>| name_key(n)),
        distinct_keys(s2, |n: Seq<char>| name_key(n)),
        forall|x: Seq<char>| s1.contains(x) <==> s2.contains(x),
    ensures
        enums_section(s1) == enums_section(s2),
{
    let sk = |n: Seq<char>| name_key(n);
    lemma_listing_order_free(s1, s2, sk);
    lemma_sorted_order(s1.map_values(sk));
    lemma_sorted_order(s2.map_values(sk));
    assert(sorted_list(s1) =~= sorted_items(s1, sk));
    assert(sorted_list(s2) =~= sorted_items(s2, sk));
}

/// The compact text of a dump does not depend on the order in which the
/// dump lists its packets, events, models and polymorphic groups, no two of
/// which share a sort key, nor on the order of its distinct string
/// enumerations.
pub proof fn lemma_compact_text_order_free(d1: DumpResult, d2: DumpResult)
    requires
        d1.options.version@ == d2.options.version@,
        d1.options.build == d2.options.build,
        distinct_keys(d1.packets@, |p: PacketEntry| packet_key(p)),
        distinct_keys(d2.packets@, |p: PacketEntry| packet_key(p)),
        forall|x: PacketEntry| d1.packets@.contains(x) <==> d2.packets@.contains(x),
        distinct_keys(d1.events@, |e: EventEntry| event_key(e)),
        distinct_keys(d2.events@, |e: EventEntry| event_key(e)),
        forall|x: EventEntry| d1.events@.contains(x) <==> d2.events@.contains(x),
        distinct_keys(d1.models@, |m: ModelEntry| name_key(m.name@)),
        distinct_keys(d2.models@, |m: ModelEntry| name_key(m.name@)),
        forall|x: ModelEntry| d1.models@.contains(x) <==> d2.models@.contains(x),
        distinct_keys(d1.polymorphic_models@, |m: PolymorphicModelEntry| name_key(m.name@)),
        distinct_keys(d2.polymorphic_models@, |m: PolymorphicModelEntry| name_key(m.name@)),
        forall|x: PolymorphicModelEntry| d1.polymorphic_models@.contains(x) <==> d2.polymorphic_models@.contains(x),
        distinct_keys(d1.string_enums.deep_view(), |n: Seq<char>| name_key(n)),
        distinct_keys(d2.string_enums.deep_view(), |n: Seq<char>| name_key(n)),
        forall|x: Seq<char>| d1.string_enums.deep_view().contains(x) <==> d2.string_enums.deep_view().contains(x),
    ensures
        compact_text(d1) == compact_text(d2),
{
    lemma_packets_order_free(d1.packets@, d2.packets@);
    lemma_events_order_free(d1.events@, d2.events@);
    lemma_models_order_free(d1.models@, d2.models@);
    lemma_polys_order_free(d1.polymorphic_models@, d2.polymorphic_models@);
    lemma_enums_order_free(d1.string_enums.deep_view(), d2.string_enums.deep_view());
}

} // verus!
