//! Ordered sets and maps keyed by type names.
//!
//! Names are ordered as `String`s are: lexicographically by character code
//! point (which is the byte order of their UTF-8 encoding).
use vstd::prelude::*;
use crate::text::{chars_of, str_eq};

verus! {

/// `a` sorts strictly before `b`.
pub open spec fn name_lt(a: Seq<char>, b: Seq<char>) -> bool
    decreases a.len(),
{
    if a.len() == 0 {
        b.len() > 0
    } else if b.len() == 0 {
        false
    } else if (a[0] as u32) < (b[0] as u32) {
        true
    } else if a[0] == b[0] {
        name_lt(a.drop_first(), b.drop_first())
    } else {
        false
    }
}

/// `name_lt` is irreflexive.
pub proof fn lemma_lt_irreflexive(a: Seq<char>)
    ensures
        !name_lt(a, a),
    decreases a.len(),
{
    if a.len() > 0 {
        lemma_lt_irreflexive(a.drop_first());
    }
}

/// `name_lt` is transitive.
pub proof fn lemma_lt_transitive(a: Seq<char>, b: Seq<char>, c: Seq<char>)
    requires
        name_lt(a, b),
        name_lt(b, c),
    ensures
        name_lt(a, c),
    decreases a.len(),
{
    if a.len() > 0 && b.len() > 0 && c.len() > 0 {
        if a[0] == b[0] && b[0] == c[0] {
            lemma_lt_transitive(a.drop_first(), b.drop_first(), c.drop_first());
        }
    }
}

/// Two names are equal or one sorts before the other.
pub proof fn lemma_lt_total(a: Seq<char>, b: Seq<char>)
    ensures
        a == b || name_lt(a, b) || name_lt(b, a),
    decreases a.len(),
{
    if a.len() > 0 && b.len() > 0 {
        if a[0] == b[0] {
            lemma_lt_total(a.drop_first(), b.drop_first());
            if a.drop_first() == b.drop_first() {
                assert(a =~= seq![a[0]] + a.drop_first());
                assert(b =~= seq![b[0]] + b.drop_first());
            }
        } else {
            vstd::utf8::char_u32_cast(a[0], a[0] as u32);
            vstd::utf8::char_u32_cast(b[0], b[0] as u32);
            assert((a[0] as u32) != (b[0] as u32));
        }
    } else if a.len() == 0 && b.len() == 0 {
        assert(a =~= b);
    }
}

/// `name_lt` is asymmetric.
pub proof fn lemma_lt_asymmetric(a: Seq<char>, b: Seq<char>)
    requires
        name_lt(a, b),
    ensures
        !name_lt(b, a),
{
    if name_lt(b, a) {
        lemma_lt_transitive(a, b, a);
        lemma_lt_irreflexive(a);
    }
}

/// Whether `a` sorts strictly before `b`.
pub fn chars_lt(a: &[char], b: &[char]) -> (r: bool)
    ensures
        r == name_lt(a@, b@),
{
    let mut i: usize = 0;
    assert(a@.subrange(0, a.len() as int) =~= a@);
    assert(b@.subrange(0, b.len() as int) =~= b@);
    while i < a.len() && i < b.len() && a[i] == b[i]
        invariant
            i <= a.len(),
            i <= b.len(),
            a@.take(i as int) == b@.take(i as int),
            name_lt(a@, b@) == name_lt(a@.subrange(i as int, a.len() as int), b@.subrange(i as int, b.len() as int)),
        decreases a.len() - i,
    {
        let ghost sa = a@.subrange(i as int, a.len() as int);
        let ghost sb = b@.subrange(i as int, b.len() as int);
        assert(sa.drop_first() =~= a@.subrange(i + 1, a.len() as int));
        assert(sb.drop_first() =~= b@.subrange(i + 1, b.len() as int));
        assert(a@.take(i + 1) =~= a@.take(i as int).push(a@[i as int]));
        assert(b@.take(i + 1) =~= b@.take(i as int).push(b@[i as int]));
        i = i + 1;
    }
    let ghost sa = a@.subrange(i as int, a.len() as int);
    let ghost sb = b@.subrange(i as int, b.len() as int);
    if i == a.len() {
        i < b.len()
    } else if i == b.len() {
        false
    } else {
        assert(sa[0] == a@[i as int]);
        assert(sb[0] == b@[i as int]);
        (a[i] as u32) < (b[i] as u32)
    }
}

/// Whether `a` sorts strictly before `b`.
pub fn str_lt(a: &str, b: &str) -> (r: bool)
    ensures
        r == name_lt(a@, b@),
{
    let av = chars_of(a);
    let bv = chars_of(b);
    chars_lt(&av, &bv)
}

/// Every element sorts strictly before every later one.
pub open spec fn strictly_sorted(s: Seq<Seq<char>>) -> bool {
    forall|i: int, j: int| 0 <= i < j < s.len() ==> name_lt(#[trigger] s[i], #[trigger] s[j])
}

/// A strictly sorted sequence holds no name twice.
pub proof fn lemma_sorted_distinct(s: Seq<Seq<char>>, i: int, j: int)
    requires
        strictly_sorted(s),
        0 <= i < s.len(),
        0 <= j < s.len(),
        i != j,
    ensures
        s[i] != s[j],
{
    if i < j {
        lemma_lt_irreflexive(s[i]);
    } else {
        lemma_lt_irreflexive(s[j]);
    }
}

/// Finds where `name` is, or belongs, in the ascending `names`: every name
/// before index `k` sorts before `name`; when `found`, `names[k]` is `name`,
/// otherwise every name from `k` on sorts after it.
pub fn locate(names: &Vec<String>, name: &str) -> (r: (usize, bool))
    requires
        strictly_sorted(names.deep_view()),
    ensures
        r.0 <= names.len(),
        forall|i: int| 0 <= i < r.0 ==> name_lt(#[trigger] names.deep_view()[i], name@),
        r.1 ==> r.0 < names.len() && names.deep_view()[r.0 as int] == name@,
        !r.1 ==> forall|i: int| r.0 <= i < names.len() ==> name_lt(name@, #[trigger] names.deep_view()[i]),
        r.1 == names.deep_view().contains(name@),
{
    let ghost s = names.deep_view();
    let mut k: usize = 0;
    while k < names.len() && str_lt(names[k].as_str(), name)
        invariant
            k <= names.len(),
            s == names.deep_view(),
            strictly_sorted(s),
            names.len() == s.len(),
            forall|i: int| 0 <= i < k ==> name_lt(#[trigger] s[i], name@),
        decreases names.len() - k,
    {
        assert(s[k as int] == names[k as int]@);
        k = k + 1;
    }
    assert(k < s.len() ==> s[k as int] == names[k as int]@);
    proof {
        assert forall|i: int| k <= i < s.len() implies name_lt(name@, #[trigger] s[i])
            || s[i] == name@ by {
            lemma_lt_total(s[k as int], name@);
            lemma_lt_total(s[i], name@);
            if i > k {
                assert(name_lt(s[k as int], s[i]));
                if name_lt(s[i], name@) {
                    lemma_lt_transitive(s[k as int], s[i], name@);
                }
                if s[k as int] != name@ {
                    assert(name_lt(name@, s[k as int]));
                    lemma_lt_transitive(name@, s[k as int], s[i]);
                } else {
                    assert(name_lt(name@, s[i]));
                }
            }
        }
    }
    if k < names.len() && str_eq(names[k].as_str(), name) {
        return (k, true);
    }
    proof {
        assert forall|i: int| 0 <= i < s.len() implies s[i] != name@ by {
            lemma_lt_irreflexive(name@);
            if i > k {
                assert(name_lt(s[k as int], s[i]));
                lemma_lt_total(s[k as int], name@);
                if name_lt(name@, s[k as int]) {
                    lemma_lt_transitive(name@, s[k as int], s[i]);
                }
            }
        }
        assert forall|i: int| k <= i < s.len() implies name_lt(name@, #[trigger] s[i]) by {
            assert(s[i] != name@);
        }
    }
    (k, false)
}

/// Inserting `x` at its place keeps a sequence sorted and adds `x` to its set.
pub proof fn lemma_insert_sorted(s: Seq<Seq<char>>, k: int, x: Seq<char>)
    requires
        strictly_sorted(s),
        0 <= k <= s.len(),
        forall|i: int| 0 <= i < k ==> name_lt(#[trigger] s[i], x),
        forall|i: int| k <= i < s.len() ==> name_lt(x, #[trigger] s[i]),
    ensures
        strictly_sorted(s.insert(k, x)),
        s.insert(k, x).to_set() == s.to_set().insert(x),
        !s.contains(x),
{
    let t = s.insert(k, x);
    assert forall|i: int, j: int| 0 <= i < j < t.len() implies name_lt(
        #[trigger] t[i],
        #[trigger] t[j],
    ) by {
        if i < k && j > k {
            lemma_lt_transitive(t[i], x, t[j]);
        } else if i > k {
            assert(t[i] == s[i - 1] && t[j] == s[j - 1]);
        }
    }
    assert forall|i: int| 0 <= i < s.len() implies s[i] != x by {
        lemma_lt_irreflexive(x);
    }
    assert(t.to_set() =~= s.to_set().insert(x)) by {
        assert forall|y: Seq<char>| t.to_set().contains(y) <==> s.to_set().insert(x).contains(y) by {
            if t.contains(y) {
                let i = choose|i: int| 0 <= i < t.len() && t[i] == y;
                if i < k {
                    assert(s[i] == y);
                } else if i > k {
                    assert(s[i - 1] == y);
                }
            }
            if s.contains(y) {
                let i = choose|i: int| 0 <= i < s.len() && s[i] == y;
                if i < k {
                    assert(t[i] == y);
                } else {
                    assert(t[i + 1] == y);
                }
            }
            if y == x {
                assert(t[k] == y);
            }
        }
    }
}

/// Two strictly sorted sequences with the same elements are equal.
pub proof fn lemma_sorted_unique(a: Seq<Seq<char>>, b: Seq<Seq<char>>)
    requires
        strictly_sorted(a),
        strictly_sorted(b),
        a.to_set() == b.to_set(),
    ensures
        a == b,
    decreases a.len(),
{
    if a.len() == 0 || b.len() == 0 {
        if b.len() > 0 {
            assert(b.to_set().contains(b[0]));
        }
        if a.len() > 0 {
            assert(a.to_set().contains(a[0]));
        }
        assert(a =~= b);
    } else {
        assert(b.to_set().contains(a[0]));
        assert(a.to_set().contains(b[0]));
        let j = choose|j: int| 0 <= j < b.len() && b[j] == a[0];
        let k = choose|k: int| 0 <= k < a.len() && a[k] == b[0];
        if a[0] != b[0] {
            assert(j > 0 && k > 0);
            assert(name_lt(b[0], b[j]));
            assert(name_lt(a[0], a[k]));
            lemma_lt_asymmetric(a[0], b[0]);
        }
        let a1 = a.drop_first();
        let b1 = b.drop_first();
        assert forall|x: Seq<char>| a1.to_set().contains(x) implies b1.to_set().contains(x) by {
            let i = choose|i: int| 0 <= i < a1.len() && a1[i] == x;
            lemma_sorted_distinct(a, 0, i + 1);
            assert(a.to_set().contains(x));
            let m = choose|m: int| 0 <= m < b.len() && b[m] == x;
            assert(m != 0);
            assert(b1[m - 1] == x);
        }
        assert forall|x: Seq<char>| b1.to_set().contains(x) implies a1.to_set().contains(x) by {
            let i = choose|i: int| 0 <= i < b1.len() && b1[i] == x;
            lemma_sorted_distinct(b, 0, i + 1);
            assert(b.to_set().contains(x));
            let m = choose|m: int| 0 <= m < a.len() && a[m] == x;
            assert(m != 0);
            assert(a1[m - 1] == x);
        }
        assert(a1.to_set() =~= b1.to_set());
        lemma_sorted_unique(a1, b1);
        assert(a =~= b) by {
            assert forall|i: int| 0 <= i < a.len() implies a[i] == b[i] by {
                if i > 0 {
                    assert(a[i] == a1[i - 1]);
                    assert(b[i] == b1[i - 1]);
                }
            }
        }
    }
}

/// The names of `s` in ascending order.
pub open spec fn sorted_names(s: Set<Seq<char>>) -> Seq<Seq<char>> {
    choose|r: Seq<Seq<char>>| strictly_sorted(r) && r.to_set() == s
}

/// How many leading names of `r` sort before `x`.
pub open spec fn lt_prefix(r: Seq<Seq<char>>, x: Seq<char>) -> int
    decreases r.len(),
{
    if r.len() == 0 {
        0
    } else if name_lt(r[0], x) {
        1 + lt_prefix(r.drop_first(), x)
    } else {
        0
    }
}

/// In a strictly sorted sequence without `x`, the names before position
/// `lt_prefix(r, x)` sort before `x` and the others after it.
proof fn lemma_lt_prefix(r: Seq<Seq<char>>, x: Seq<char>)
    requires
        strictly_sorted(r),
        !r.contains(x),
    ensures
        0 <= lt_prefix(r, x) <= r.len(),
        forall|i: int| 0 <= i < lt_prefix(r, x) ==> name_lt(#[trigger] r[i], x),
        forall|i: int| lt_prefix(r, x) <= i < r.len() ==> name_lt(x, #[trigger] r[i]),
    decreases r.len(),
{
    if r.len() > 0 {
        let t = r.drop_first();
        assert(strictly_sorted(t)) by {
            assert forall|i: int, j: int| 0 <= i < j < t.len() implies name_lt(#[trigger] t[i], #[trigger] t[j]) by {
                assert(t[i] == r[i + 1] && t[j] == r[j + 1]);
            }
        }
        assert(!t.contains(x)) by {
            if t.contains(x) {
                let k = choose|k: int| 0 <= k < t.len() && t[k] == x;
                assert(r[k + 1] == x);
            }
        }
        lemma_lt_prefix(t, x);
        if name_lt(r[0], x) {
            assert forall|i: int| 0 <= i < lt_prefix(r, x) implies name_lt(#[trigger] r[i], x) by {
                if i > 0 {
                    assert(r[i] == t[i - 1]);
                }
            }
            assert forall|i: int| lt_prefix(r, x) <= i < r.len() implies name_lt(x, #[trigger] r[i]) by {
                assert(r[i] == t[i - 1]);
            }
        } else {
            assert(r[0] != x);
            lemma_lt_total(r[0], x);
            assert forall|i: int| 0 <= i < r.len() implies name_lt(x, #[trigger] r[i]) by {
                if i > 0 {
                    assert(name_lt(r[0], r[i]));
                    lemma_lt_transitive(x, r[0], r[i]);
                }
            }
        }
    }
}

/// Every finite set of names has an ascending order, which `sorted_names`
/// gives.
pub proof fn lemma_sorted_names_exist(s: Set<Seq<char>>)
    requires
        s.finite(),
    ensures
        strictly_sorted(sorted_names(s)),
        sorted_names(s).to_set() == s,
    decreases s.len(),
{
    if s.len() == 0 {
        let e = Seq::<Seq<char>>::empty();
        assert(s =~= Set::<Seq<char>>::empty());
        assert(e.to_set() =~= s);
        assert(strictly_sorted(e) && e.to_set() == s);
    } else {
        let x = s.choose();
        let rest = s.remove(x);
        lemma_sorted_names_exist(rest);
        let r = sorted_names(rest);
        assert(!r.contains(x)) by {
            if r.contains(x) {
                assert(r.to_set().contains(x));
            }
        }
        lemma_lt_prefix(r, x);
        let k = lt_prefix(r, x);
        lemma_insert_sorted(r, k, x);
        let w = r.insert(k, x);
        assert(w.to_set() =~= s);
        assert(strictly_sorted(w) && w.to_set() == s);
    }
}

/// A strictly sorted sequence is the ascending order of its own elements.
pub proof fn lemma_sorted_names(r: Seq<Seq<char>>)
    requires
        strictly_sorted(r),
    ensures
        sorted_names(r.to_set()) == r,
{
    let s = r.to_set();
    assert(exists|x: Seq<Seq<char>>| strictly_sorted(x) && x.to_set() == s);
    let c = sorted_names(s);
    lemma_sorted_unique(c, r);
}

/// A set of names kept in ascending order without duplicates (the role of a
/// `BTreeSet<String>`).
#[derive(Debug, Clone)]
pub struct NameSet {
    names: Vec<String>,
}

impl View for NameSet {
    type V = Seq<Seq<char>>;

    /// The names in ascending order.
    closed spec fn view(&self) -> Seq<Seq<char>> {
        self.names.deep_view()
    }
}

impl NameSet {
    /// The ascending order holds.
    pub open spec fn wf(&self) -> bool {
        strictly_sorted(self@)
    }

    /// An empty set.
    pub fn new() -> (r: NameSet)
        ensures
            r.wf(),
            r@ == Seq::<Seq<char>>::empty(),
    {
        let r = NameSet { names: Vec::new() };
        assert(r@ =~= Seq::<Seq<char>>::empty());
        r
    }

    /// The number of names.
    pub fn len(&self) -> (r: usize)
        ensures
            r == self@.len(),
    {
        self.names.len()
    }

    /// Whether the set is empty.
    pub fn is_empty(&self) -> (r: bool)
        ensures
            r == (self@.len() == 0),
    {
        self.names.len() == 0
    }

    /// The `i`-th smallest name.
    pub fn get(&self, i: usize) -> (r: &String)
        requires
            i < self@.len(),
        ensures
            r@ == self@[i as int],
    {
        &self.names[i]
    }

    /// Whether `name` is in the set.
    pub fn contains(&self, name: &str) -> (r: bool)
        ensures
            r == self@.contains(name@),
    {
        let mut i: usize = 0;
        while i < self.names.len()
            invariant
                i <= self.names.len(),
                forall|k: int| 0 <= k < i ==> self@[k] != name@,
            decreases self.names.len() - i,
        {
            if str_eq(self.names[i].as_str(), name) {
                assert(self@[i as int] == name@);
                return true;
            }
            i = i + 1;
        }
        false
    }

    /// Adds `name`; returns whether it was absent.
    pub fn insert(&mut self, name: String) -> (r: bool)
        requires
            old(self).wf(),
        ensures
            final(self).wf(),
            r == !old(self)@.contains(name@),
            final(self)@.to_set() == old(self)@.to_set().insert(name@),
            final(self)@.len() == old(self)@.len() + (if r { 1int } else { 0int }),
    {
        let ghost s = self@;
        let (k, found) = locate(&self.names, name.as_str());
        if found {
            assert(s[k as int] == name@);
            return false;
        }
        let ghost nv = name@;
        self.names.insert(k, name);
        proof {
            assert(self@ =~= s.insert(k as int, nv));
            lemma_insert_sorted(s, k as int, nv);
        }
        true
    }

    /// Removes `name`, if present.
    pub fn remove(&mut self, name: &str)
        requires
            old(self).wf(),
        ensures
            final(self).wf(),
            final(self)@.to_set() == old(self)@.to_set().remove(name@),
    {
        let ghost s = self@;
        let (k, found) = locate(&self.names, name);
        if found {
            self.names.remove(k);
            proof {
                assert(self@ =~= s.remove(k as int));
                assert forall|i: int, j: int| 0 <= i < j < self@.len() implies name_lt(
                    #[trigger] self@[i],
                    #[trigger] self@[j],
                ) by {
                    let a = if i < k { i } else { i + 1 };
                    let b = if j < k { j } else { j + 1 };
                    assert(self@[i] == s[a] && self@[j] == s[b]);
                }
                assert forall|x: Seq<char>| self@.to_set().contains(x) <==> s.to_set().remove(name@).contains(x) by {
                    if self@.contains(x) {
                        let i = choose|i: int| 0 <= i < self@.len() && self@[i] == x;
                        let a = if i < k { i } else { i + 1 };
                        assert(s[a] == x);
                        lemma_sorted_distinct(s, a, k as int);
                    }
                    if s.contains(x) && x != name@ {
                        let a = choose|a: int| 0 <= a < s.len() && s[a] == x;
                        if a < k {
                            assert(self@[a] == x);
                        } else {
                            assert(a != k);
                            assert(self@[a - 1] == x);
                        }
                    }
                }
                assert(self@.to_set() =~= s.to_set().remove(name@));
            }
        } else {
            assert(s.to_set().remove(name@) =~= s.to_set());
        }
    }

    /// A copy of the set.
    pub fn clone_set(&self) -> (r: NameSet)
        ensures
            r@ == self@,
    {
        NameSet { names: self.to_vec() }
    }

    /// The names as a vector, in ascending order.
    pub fn to_vec(&self) -> (r: Vec<String>)
        ensures
            r.deep_view() == self@,
    {
        self.names.clone()
    }
}

/// Position of the last occurrence of `k` in `keys`, or -1.
pub open spec fn key_index(keys: Seq<Seq<char>>, k: Seq<char>) -> int
    decreases keys.len(),
{
    if keys.len() == 0 {
        -1
    } else if keys.last() == k {
        keys.len() - 1
    } else {
        key_index(keys.drop_last(), k)
    }
}

/// In a sorted key sequence, `key_index` finds each key at its own position.
pub proof fn lemma_key_index(keys: Seq<Seq<char>>, n: int)
    requires
        strictly_sorted(keys),
        0 <= n < keys.len(),
    ensures
        key_index(keys, keys[n]) == n,
    decreases keys.len(),
{
    if n < keys.len() - 1 {
        lemma_sorted_distinct(keys, n, keys.len() - 1);
        assert(strictly_sorted(keys.drop_last()));
        assert(keys.drop_last()[n] == keys[n]);
        lemma_key_index(keys.drop_last(), n);
    }
}

/// `key_index` is -1 exactly for absent keys.
pub proof fn lemma_key_index_absent(keys: Seq<Seq<char>>, k: Seq<char>)
    requires
        !keys.contains(k),
    ensures
        key_index(keys, k) == -1,
    decreases keys.len(),
{
    if keys.len() > 0 {
        assert(keys.last() != k) by {
            assert(keys[keys.len() - 1] == keys.last());
        }
        assert(!keys.drop_last().contains(k)) by {
            if keys.drop_last().contains(k) {
                let i = choose|i: int| 0 <= i < keys.drop_last().len() && keys.drop_last()[i] == k;
                assert(keys[i] == k);
            }
        }
        lemma_key_index_absent(keys.drop_last(), k);
    }
}

/// `key_index` finds a key exactly when the key is present, and at a
/// position holding it.
pub proof fn lemma_key_index_found(keys: Seq<Seq<char>>, k: Seq<char>)
    ensures
        key_index(keys, k) >= 0 <==> keys.contains(k),
        key_index(keys, k) >= 0 ==> key_index(keys, k) < keys.len() && keys[key_index(keys, k)] == k,
        key_index(keys, k) < keys.len(),
    decreases keys.len(),
{
    if keys.len() > 0 {
        lemma_key_index_found(keys.drop_last(), k);
        if keys.last() != k {
            assert(keys.drop_last().contains(k) <==> keys.contains(k)) by {
                if keys.contains(k) {
                    let i = choose|i: int| 0 <= i < keys.len() && keys[i] == k;
                    assert(i != keys.len() - 1);
                    assert(keys.drop_last()[i] == k);
                }
                if keys.drop_last().contains(k) {
                    let i = choose|i: int| 0 <= i < keys.drop_last().len() && keys.drop_last()[i] == k;
                    assert(keys[i] == k);
                }
            }
        } else {
            assert(keys[keys.len() - 1] == k);
        }
    }
}

/// Appending `x` moves `x`'s position to the end and leaves other keys'.
pub proof fn lemma_key_index_push(keys: Seq<Seq<char>>, x: Seq<char>, k: Seq<char>)
    ensures
        key_index(keys.push(x), k) == (if k == x {
            keys.len() as int
        } else {
            key_index(keys, k)
        }),
{
    assert(keys.push(x).drop_last() =~= keys);
}

/// A map from names to values, its keys kept in ascending order (the role of
/// a `BTreeMap<String, V>`).
#[derive(Debug, Clone)]
pub struct NameMap<V> {
    keys: Vec<String>,
    vals: Vec<V>,
}

impl<V> NameMap<V> {
    /// The keys in ascending order.
    pub closed spec fn keys(&self) -> Seq<Seq<char>> {
        self.keys.deep_view()
    }

    /// The values, in the order of their keys.
    pub closed spec fn vals(&self) -> Seq<V> {
        self.vals@
    }

    /// Keys ascend and each has a value.
    pub open spec fn wf(&self) -> bool {
        strictly_sorted(self.keys()) && self.keys().len() == self.vals().len()
    }

    /// The value stored under `k`.
    pub open spec fn spec_get(&self, k: Seq<char>) -> Option<V> {
        let i = key_index(self.keys(), k);
        if 0 <= i {
            Some(self.vals()[i])
        } else {
            None
        }
    }

    /// The value at position `i` is what `spec_get` gives for the key there.
    pub proof fn lemma_get_at(&self, n: int)
        requires
            self.wf(),
            0 <= n < self.keys().len(),
        ensures
            self.spec_get(self.keys()[n]) == Some(self.vals()[n]),
    {
        lemma_key_index(self.keys(), n);
    }

    /// A key absent from the map has no value.
    pub proof fn lemma_get_absent(&self, k: Seq<char>)
        requires
            !self.keys().contains(k),
        ensures
            self.spec_get(k) is None,
    {
        lemma_key_index_absent(self.keys(), k);
    }

    /// An empty map.
    pub fn new() -> (r: NameMap<V>)
        ensures
            r.wf(),
            r.keys() == Seq::<Seq<char>>::empty(),
    {
        let r = NameMap { keys: Vec::new(), vals: Vec::new() };
        assert(r.keys() =~= Seq::<Seq<char>>::empty());
        r
    }

    /// The number of entries.
    pub fn len(&self) -> (r: usize)
        requires
            self.wf(),
        ensures
            r == self.keys().len(),
    {
        self.keys.len()
    }

    /// The `i`-th smallest key.
    pub fn key_at(&self, i: usize) -> (r: &String)
        requires
            self.wf(),
            i < self.keys().len(),
        ensures
            r@ == self.keys()[i as int],
    {
        &self.keys[i]
    }

    /// The value of the `i`-th smallest key.
    pub fn value_at(&self, i: usize) -> (r: &V)
        requires
            self.wf(),
            i < self.keys().len(),
        ensures
            *r == self.vals()[i as int],
    {
        &self.vals[i]
    }

    /// The values, in ascending order of their keys.
    pub fn into_values(self) -> (r: Vec<V>)
        ensures
            r@ == self.vals(),
    {
        self.vals
    }

    /// A key is present exactly when it has a value.
    pub proof fn lemma_domain(&self, k: Seq<char>)
        requires
            self.wf(),
        ensures
            self.keys().contains(k) <==> self.spec_get(k) is Some,
    {
        if self.keys().contains(k) {
            let i = choose|i: int| 0 <= i < self.keys().len() && self.keys()[i] == k;
            self.lemma_get_at(i);
        } else {
            self.lemma_get_absent(k);
        }
    }

    /// The value stored under `key`.
    pub fn get(&self, key: &str) -> (r: Option<&V>)
        requires
            self.wf(),
        ensures
            r matches Some(v) ==> self.spec_get(key@) == Some(*v),
            r is None ==> self.spec_get(key@) is None,
    {
        let (k, found) = locate(&self.keys, key);
        if found {
            proof {
                self.lemma_get_at(k as int);
            }
            Some(&self.vals[k])
        } else {
            proof {
                self.lemma_get_absent(key@);
            }
            None
        }
    }

    /// Whether `key` has a value.
    pub fn contains_key(&self, key: &str) -> (r: bool)
        requires
            self.wf(),
        ensures
            r == self.keys().contains(key@),
    {
        let (_k, found) = locate(&self.keys, key);
        found
    }

    /// Stores `v` under `key`, replacing any earlier value.
    pub fn set(&mut self, key: String, v: V)
        requires
            old(self).wf(),
        ensures
            final(self).wf(),
            final(self).keys().to_set() == old(self).keys().to_set().insert(key@),
            final(self).spec_get(key@) == Some(v),
            forall|k: Seq<char>| k != key@ ==> #[trigger] final(self).spec_get(k) == old(self).spec_get(k),
    {
        let ghost s = self.keys();
        let ghost old_map = *self;
        let ghost kv = key@;
        let (k, found) = locate(&self.keys, key.as_str());
        if found {
            self.vals.set(k, v);
            proof {
                assert(self.keys() == s);
                self.lemma_get_at(k as int);
                assert forall|q: Seq<char>| q != kv implies #[trigger] self.spec_get(q) == old_map.spec_get(q) by {
                    if s.contains(q) {
                        let i = choose|i: int| 0 <= i < s.len() && s[i] == q;
                        self.lemma_get_at(i);
                        old_map.lemma_get_at(i);
                    } else {
                        self.lemma_get_absent(q);
                        old_map.lemma_get_absent(q);
                    }
                }
                assert(s.to_set().insert(kv) =~= s.to_set());
            }
        } else {
            self.keys.insert(k, key);
            self.vals.insert(k, v);
            proof {
                assert(self.keys() =~= s.insert(k as int, kv));
                lemma_insert_sorted(s, k as int, kv);
                self.lemma_get_at(k as int);
                assert forall|q: Seq<char>| q != kv implies #[trigger] self.spec_get(q) == old_map.spec_get(q) by {
                    if s.contains(q) {
                        let i = choose|i: int| 0 <= i < s.len() && s[i] == q;
                        old_map.lemma_get_at(i);
                        if i < k {
                            self.lemma_get_at(i);
                        } else {
                            self.lemma_get_at(i + 1);
                        }
                    } else {
                        old_map.lemma_get_absent(q);
                        assert(!self.keys().contains(q)) by {
                            if self.keys().contains(q) {
                                let i = choose|i: int| 0 <= i < self.keys().len() && self.keys()[i] == q;
                                if i < k {
                                    assert(s[i] == q);
                                } else if i > k {
                                    assert(s[i - 1] == q);
                                }
                            }
                        }
                        self.lemma_get_absent(q);
                    }
                }
            }
        }
    }
}

/// A map from addresses to values, its keys kept in ascending order (the
/// role of a `HashMap<u32, V>`).
#[derive(Debug, Clone)]
pub struct RvaMap<V> {
    keys: Vec<u32>,
    vals: Vec<V>,
}

/// The keys ascend strictly.
pub open spec fn ascending(s: Seq<u32>) -> bool {
    forall|i: int, j: int| 0 <= i < j < s.len() ==> s[i] < s[j]
}

/// Position of `k` in `keys`, or -1.
pub open spec fn rva_index(keys: Seq<u32>, k: u32) -> int
    decreases keys.len(),
{
    if keys.len() == 0 {
        -1
    } else if keys.last() == k {
        keys.len() - 1
    } else {
        rva_index(keys.drop_last(), k)
    }
}

proof fn lemma_rva_index(keys: Seq<u32>, k: u32)
    requires
        ascending(keys),
    ensures
        rva_index(keys, k) >= 0 <==> keys.contains(k),
        rva_index(keys, k) >= 0 ==> rva_index(keys, k) < keys.len() && keys[rva_index(keys, k)] == k,
        forall|i: int| 0 <= i < keys.len() && keys[i] == k ==> rva_index(keys, k) == i,
    decreases keys.len(),
{
    if keys.len() > 0 {
        let d = keys.drop_last();
        assert(ascending(d)) by {
            assert forall|i: int, j: int| 0 <= i < j < d.len() implies d[i] < d[j] by {
                assert(d[i] == keys[i] && d[j] == keys[j]);
            }
        }
        lemma_rva_index(d, k);
        if keys.last() != k {
            assert(d.contains(k) <==> keys.contains(k)) by {
                if keys.contains(k) {
                    let i = choose|i: int| 0 <= i < keys.len() && keys[i] == k;
                    assert(i != keys.len() - 1);
                    assert(d[i] == k);
                }
                if d.contains(k) {
                    let i = choose|i: int| 0 <= i < d.len() && d[i] == k;
                    assert(keys[i] == k);
                }
            }
            assert forall|i: int| 0 <= i < keys.len() && keys[i] == k implies rva_index(keys, k) == i by {
                assert(i != keys.len() - 1);
                assert(d[i] == k);
            }
        } else {
            assert(keys[keys.len() - 1] == k);
            assert forall|i: int| 0 <= i < keys.len() && keys[i] == k implies rva_index(keys, k) == i by {
                if i < keys.len() - 1 {
                    assert(keys[i] < keys[keys.len() - 1]);
                }
            }
        }
    }
}

impl<V> RvaMap<V> {
    /// The value stored under `k`.
    pub open spec fn spec_get(&self, k: u32) -> Option<V> {
        let i = rva_index(self.keys(), k);
        if i >= 0 {
            Some(self.vals()[i])
        } else {
            None
        }
    }

    /// The keys in ascending order.
    pub closed spec fn keys(&self) -> Seq<u32> {
        self.keys@
    }

    /// The values, in the order of their keys.
    pub closed spec fn vals(&self) -> Seq<V> {
        self.vals@
    }

    /// Keys ascend and each has a value.
    pub open spec fn wf(&self) -> bool {
        ascending(self.keys()) && self.keys().len() == self.vals().len()
    }

    /// The value at position `n` is what `spec_get` gives for the key there.
    pub proof fn lemma_rva_get_at(&self, n: int)
        requires
            self.wf(),
            0 <= n < self.keys().len(),
        ensures
            self.spec_get(self.keys()[n]) == Some(self.vals()[n]),
    {
        lemma_rva_index(self.keys(), self.keys()[n]);
    }

    /// A key is present exactly when it has a value.
    pub proof fn lemma_rva_domain(&self, k: u32)
        requires
            self.wf(),
        ensures
            self.keys().contains(k) <==> self.spec_get(k) is Some,
    {
        lemma_rva_index(self.keys(), k);
    }

    /// An empty map.
    pub fn new() -> (r: RvaMap<V>)
        ensures
            r.wf(),
            r.keys() == Seq::<u32>::empty(),
    {
        RvaMap { keys: Vec::new(), vals: Vec::new() }
    }

    /// The number of entries.
    pub fn len(&self) -> (r: usize)
        requires
            self.wf(),
        ensures
            r == self.keys().len(),
    {
        self.keys.len()
    }

    /// The `i`-th smallest key.
    pub fn key_at(&self, i: usize) -> (r: u32)
        requires
            self.wf(),
            i < self.keys().len(),
        ensures
            r == self.keys()[i as int],
    {
        self.keys[i]
    }

    /// The value of the `i`-th smallest key.
    pub fn value_at(&self, i: usize) -> (r: &V)
        requires
            self.wf(),
            i < self.keys().len(),
        ensures
            *r == self.vals()[i as int],
    {
        &self.vals[i]
    }

    fn position(&self, key: u32) -> (r: (usize, bool))
        requires
            self.wf(),
        ensures
            r.0 <= self.keys().len(),
            forall|i: int| 0 <= i < r.0 ==> self.keys()[i] < key,
            r.1 ==> r.0 < self.keys().len() && self.keys()[r.0 as int] == key,
            !r.1 ==> forall|i: int| r.0 <= i < self.keys().len() ==> key < self.keys()[i],
    {
        let mut lo: usize = 0;
        let mut hi: usize = self.keys.len();
        while lo < hi
            invariant
                lo <= hi <= self.keys.len(),
                self.wf(),
                forall|i: int| 0 <= i < lo ==> self.keys()[i] < key,
                forall|i: int| hi <= i < self.keys().len() ==> key < self.keys()[i],
            decreases hi - lo,
        {
            let mid = lo + (hi - lo) / 2;
            let k = self.keys[mid];
            if k < key {
                lo = mid + 1;
            } else if key < k {
                hi = mid;
            } else {
                return (mid, true);
            }
        }
        (lo, false)
    }

    /// The value stored under `key`.
    pub fn get(&self, key: u32) -> (r: Option<&V>)
        requires
            self.wf(),
        ensures
            r matches Some(v) ==> self.spec_get(key) == Some(*v),
            r is None ==> self.spec_get(key) is None,
    {
        proof {
            lemma_rva_index(self.keys(), key);
        }
        let (k, found) = self.position(key);
        if found {
            Some(&self.vals[k])
        } else {
            None
        }
    }

    /// Whether `key` has a value.
    pub fn contains_key(&self, key: u32) -> (r: bool)
        requires
            self.wf(),
        ensures
            r == self.keys().contains(key),
            r == self.spec_get(key) is Some,
    {
        proof {
            lemma_rva_index(self.keys(), key);
        }
        let (k, found) = self.position(key);
        if found {
            assert(self.keys()[k as int] == key);
        }
        found
    }

    /// Stores `v` under `key`, replacing any earlier value.
    pub fn insert(&mut self, key: u32, v: V)
        requires
            old(self).wf(),
        ensures
            final(self).wf(),
            final(self).keys().to_set() == old(self).keys().to_set().insert(key),
            forall|i: int| 0 <= i < final(self).keys().len() && final(self).keys()[i] == key ==> final(self).vals()[i] == v,
            forall|i: int| 0 <= i < old(self).keys().len() && old(self).keys()[i] != key ==> exists|j: int|
                0 <= j < final(self).keys().len() && final(self).keys()[j] == old(self).keys()[i]
                    && final(self).vals()[j] == old(self).vals()[i],
            final(self).spec_get(key) == Some(v),
            forall|k: u32| k != key ==> #[trigger] final(self).spec_get(k) == old(self).spec_get(k),
    {
        let ghost before = *self;
        self.insert_entry(key, v);
        proof {
            lemma_rva_index(self.keys(), key);
            assert(self.keys().to_set().contains(key));
            assert forall|k: u32| k != key implies #[trigger] self.spec_get(k) == before.spec_get(k) by {
                lemma_rva_index(self.keys(), k);
                lemma_rva_index(before.keys(), k);
                if before.keys().contains(k) {
                    let i = rva_index(before.keys(), k);
                    let j = choose|j: int|
                        0 <= j < self.keys().len() && self.keys()[j] == before.keys()[i] && self.vals()[j] == before.vals()[i];
                } else {
                    assert(!self.keys().to_set().contains(k));
                }
            }
        }
    }

    fn insert_entry(&mut self, key: u32, v: V)
        requires
            old(self).wf(),
        ensures
            final(self).wf(),
            final(self).keys().to_set() == old(self).keys().to_set().insert(key),
            forall|i: int| 0 <= i < final(self).keys().len() && final(self).keys()[i] == key ==> final(self).vals()[i] == v,
            forall|i: int| 0 <= i < old(self).keys().len() && old(self).keys()[i] != key ==> exists|j: int|
                0 <= j < final(self).keys().len() && final(self).keys()[j] == old(self).keys()[i]
                    && final(self).vals()[j] == old(self).vals()[i],
    {
        let ghost ok = self.keys@;
        let ghost ov = self.vals@;
        let (k, found) = self.position(key);
        if found {
            self.vals.set(k, v);
            assert forall|i: int| 0 <= i < self.keys().len() && self.keys()[i] == key implies self.vals()[i] == v by {
                if i != k {
                    assert(ok[i] != ok[k as int]);
                }
            }
            assert(ok.to_set().insert(key) =~= ok.to_set());
        } else {
            self.keys.insert(k, key);
            self.vals.insert(k, v);
            assert forall|i: int, j: int| 0 <= i < j < self.keys().len() implies self.keys()[i] < self.keys()[j] by {
                let a = if i < k { i } else if i == k { -1 } else { i - 1 };
                let b = if j < k { j } else if j == k { -1 } else { j - 1 };
                if a >= 0 && b >= 0 {
                    assert(self.keys()[i] == ok[a] && self.keys()[j] == ok[b]);
                }
            }
            assert forall|i: int| 0 <= i < self.keys().len() && self.keys()[i] == key implies self.vals()[i] == v by {
                if i < k {
                    assert(self.keys()[i] == ok[i]);
                } else if i > k {
                    assert(self.keys()[i] == ok[i - 1]);
                }
            }
            assert forall|i: int| 0 <= i < ok.len() && ok[i] != key implies exists|j: int|
                0 <= j < self.keys().len() && self.keys()[j] == ok[i] && self.vals()[j] == ov[i] by {
                if i < k {
                    assert(self.keys()[i] == ok[i] && self.vals()[i] == ov[i]);
                } else {
                    assert(self.keys()[i + 1] == ok[i] && self.vals()[i + 1] == ov[i]);
                }
            }
            assert(self.keys() =~= ok.insert(k as int, key));
            assert forall|x: u32| self.keys().to_set().contains(x) <==> ok.to_set().insert(key).contains(x) by {
                if self.keys().contains(x) {
                    let i = choose|i: int| 0 <= i < self.keys().len() && self.keys()[i] == x;
                    if i < k {
                        assert(ok[i] == x);
                    } else if i > k {
                        assert(ok[i - 1] == x);
                    }
                }
                if ok.contains(x) {
                    let i = choose|i: int| 0 <= i < ok.len() && ok[i] == x;
                    if i < k {
                        assert(self.keys()[i] == x);
                    } else {
                        assert(self.keys()[i + 1] == x);
                    }
                }
                if x == key {
                    assert(self.keys()[k as int] == x);
                }
            }
            assert(self.keys().to_set() =~= ok.to_set().insert(key));
        }
    }
}

} // verus!
