//! MSVC RTTI: type descriptors, vtables and the class hierarchy.
use vstd::prelude::*;
use crate::names::{NameMap, RvaMap};
use crate::pe::{PeImage, cstring_at, first_section_named, le_u32, le_u64, bytes_at, read_u32_le, read_u64_le};
use crate::text::{
    str_eq, chars_of, string_of, slice_of, rfind_str, starts_with_str, replace_str, trimmed, find_last,
    has_prefix, replace_all, trim, lemma_find_last_bounds, occurs_at, find_first, find_str, contains_str,
    contains_seq, join, join_seqs, append_str, append, owned, lemma_find_first_bounds, push_chars,
};

verus! {

/// The derived classes of each base class, as recovered from RTTI class
/// hierarchy descriptors. Each entry pairs a base class with the classes
/// derived from it, in the order they were found.
#[derive(Debug, Default, Clone)]
pub struct ClassHierarchy {
    pub base_to_derived: Vec<(String, Vec<String>)>,
}

/// The abstract value of one hierarchy entry.
pub open spec fn entry_view(e: (String, Vec<String>)) -> (Seq<char>, Seq<Seq<char>>) {
    (e.0@, e.1.deep_view())
}

/// The derived list of the first entry for `base` in `entries`.
pub open spec fn derived_in(entries: Seq<(Seq<char>, Seq<Seq<char>>)>, base: Seq<char>) -> Option<
    Seq<Seq<char>>,
>
    decreases entries.len(),
{
    if entries.len() == 0 {
        None
    } else if entries[0].0 == base {
        Some(entries[0].1)
    } else {
        derived_in(entries.drop_first(), base)
    }
}

/// No base has two entries in a hierarchy.
pub open spec fn distinct_bases(es: Seq<(Seq<char>, Seq<Seq<char>>)>) -> bool {
    forall|i: int, j: int| 0 <= i < j < es.len() ==> (#[trigger] es[i]).0 != (#[trigger] es[j]).0
}

/// The bases, in entry order, whose derived list holds `derived`.
pub open spec fn bases_in(entries: Seq<(Seq<char>, Seq<Seq<char>>)>, derived: Seq<char>) -> Seq<
    Seq<char>,
>
    decreases entries.len(),
{
    if entries.len() == 0 {
        seq![]
    } else {
        let rest = bases_in(entries.drop_first(), derived);
        if entries[0].1.contains(derived) {
            seq![entries[0].0] + rest
        } else {
            rest
        }
    }
}

proof fn lemma_derived_in_update(
    es: Seq<(Seq<char>, Seq<Seq<char>>)>,
    i: int,
    e: (Seq<char>, Seq<Seq<char>>),
)
    requires
        0 <= i < es.len(),
        es[i].0 == e.0,
        forall|k: int| 0 <= k < i ==> (#[trigger] es[k]).0 != e.0,
    ensures
        derived_in(es.update(i, e), e.0) == Some(e.1),
        forall|b: Seq<char>| b != e.0 ==> #[trigger] derived_in(es.update(i, e), b) == derived_in(es, b),
    decreases es.len(),
{
    let t = es.update(i, e);
    if i > 0 {
        assert(t.drop_first() =~= es.drop_first().update(i - 1, e));
        assert forall|k: int| 0 <= k < i - 1 implies (#[trigger] es.drop_first()[k]).0 != e.0 by {
            assert(es.drop_first()[k] == es[k + 1]);
        }
        lemma_derived_in_update(es.drop_first(), i - 1, e);
        assert(t[0] == es[0]);
    } else {
        assert(t.drop_first() =~= es.drop_first());
    }
    assert forall|b: Seq<char>| b != e.0 implies #[trigger] derived_in(t, b) == derived_in(es, b) by {
        if i > 0 {
            assert(derived_in(t.drop_first(), b) == derived_in(es.drop_first(), b));
        }
    }
}

proof fn lemma_derived_in_push(es: Seq<(Seq<char>, Seq<Seq<char>>)>, e: (Seq<char>, Seq<Seq<char>>))
    requires
        forall|k: int| 0 <= k < es.len() ==> (#[trigger] es[k]).0 != e.0,
    ensures
        derived_in(es.push(e), e.0) == Some(e.1),
        forall|b: Seq<char>| b != e.0 ==> #[trigger] derived_in(es.push(e), b) == derived_in(es, b),
    decreases es.len(),
{
    let t = es.push(e);
    if es.len() > 0 {
        assert(t.drop_first() =~= es.drop_first().push(e));
        assert forall|k: int| 0 <= k < es.len() - 1 implies (#[trigger] es.drop_first()[k]).0 != e.0 by {
            assert(es.drop_first()[k] == es[k + 1]);
        }
        lemma_derived_in_push(es.drop_first(), e);
        assert(t[0] == es[0]);
    } else {
        assert(t.drop_first() =~= es);
    }
    assert forall|b: Seq<char>| b != e.0 implies #[trigger] derived_in(t, b) == derived_in(es, b) by {
        if es.len() > 0 {
            assert(derived_in(t.drop_first(), b) == derived_in(es.drop_first(), b));
        } else {
            assert(derived_in(t.drop_first(), b) is None);
        }
    }
}

/// Whether `v` holds `s`.
pub fn vec_contains_str(v: &Vec<String>, s: &str) -> (r: bool)
    ensures
        r == v.deep_view().contains(s@),
{
    let mut i: usize = 0;
    while i < v.len()
        invariant
            i <= v.len(),
            forall|k: int| 0 <= k < i ==> v.deep_view()[k] != s@,
        decreases v.len() - i,
    {
        if str_eq(v[i].as_str(), s) {
            assert(v.deep_view()[i as int] == s@);
            return true;
        }
        i = i + 1;
    }
    false
}

impl ClassHierarchy {
    /// The entries as abstract values.
    pub open spec fn entries(&self) -> Seq<(Seq<char>, Seq<Seq<char>>)> {
        self.base_to_derived@.map_values(|e: (String, Vec<String>)| entry_view(e))
    }

    /// An empty hierarchy.
    pub fn new() -> (r: ClassHierarchy)
        ensures
            r.entries() == Seq::<(Seq<char>, Seq<Seq<char>>)>::empty(),
    {
        let r = ClassHierarchy { base_to_derived: Vec::new() };
        assert(r.entries() =~= Seq::<(Seq<char>, Seq<Seq<char>>)>::empty());
        r
    }

    /// Position of the first entry for `base`.
    fn position(&self, base: &str) -> (r: Option<usize>)
        ensures
            r matches Some(i) ==> i < self.base_to_derived.len() && self.entries()[i as int].0
                == base@ && derived_in(self.entries(), base@) == Some(self.entries()[i as int].1)
                && forall|k: int| 0 <= k < i ==> (#[trigger] self.entries()[k]).0 != base@,
            r is None ==> derived_in(self.entries(), base@) is None && forall|k: int|
                0 <= k < self.entries().len() ==> (#[trigger] self.entries()[k]).0 != base@,
    {
        let ghost es = self.entries();
        let mut i: usize = 0;
        assert(es.subrange(0, es.len() as int) =~= es);
        while i < self.base_to_derived.len()
            invariant
                i <= self.base_to_derived.len(),
                es == self.entries(),
                derived_in(es, base@) == derived_in(es.subrange(i as int, es.len() as int), base@),
                forall|k: int| 0 <= k < i ==> (#[trigger] es[k]).0 != base@,
            decreases self.base_to_derived.len() - i,
        {
            let ghost rest = es.subrange(i as int, es.len() as int);
            assert(rest[0] == es[i as int]);
            assert(es[i as int].0 == self.base_to_derived[i as int].0@);
            if str_eq(self.base_to_derived[i].0.as_str(), base) {
                return Some(i);
            }
            assert(rest.drop_first() =~= es.subrange(i + 1, es.len() as int));
            i = i + 1;
        }
        None
    }

    /// The classes derived from `base`.
    pub fn derived_of(&self, base: &str) -> (r: Option<&[String]>)
        ensures
            r matches Some(d) ==> derived_in(self.entries(), base@) == Some(d.deep_view()),
            r is None ==> derived_in(self.entries(), base@) is None,
    {
        match self.position(base) {
            Some(i) => {
                let d = self.base_to_derived[i].1.as_slice();
                assert(d.deep_view() =~= self.base_to_derived[i as int].1.deep_view());
                Some(d)
            },
            None => None,
        }
    }

    /// Whether RTTI lists `derived` among the classes derived from `base`.
    pub fn is_base_of(&self, base: &str, derived: &str) -> (r: bool)
        ensures
            r == (derived_in(self.entries(), base@) matches Some(d) && d.contains(derived@)),
    {
        match self.position(base) {
            Some(i) => vec_contains_str(&self.base_to_derived[i].1, derived),
            None => false,
        }
    }

    /// The bases of `derived`, in entry order.
    pub fn bases_of(&self, derived: &str) -> (r: Vec<String>)
        ensures
            r.deep_view() == bases_in(self.entries(), derived@),
    {
        let ghost es = self.entries();
        let mut out: Vec<String> = Vec::new();
        let mut i: usize = self.base_to_derived.len();
        assert(es.subrange(i as int, es.len() as int) =~= Seq::<(Seq<char>, Seq<Seq<char>>)>::empty());
        while i > 0
            invariant
                i <= self.base_to_derived.len(),
                es == self.entries(),
                out.deep_view() == bases_in(es.subrange(i as int, es.len() as int), derived@),
            decreases i,
        {
            i = i - 1;
            let ghost rest = es.subrange(i as int, es.len() as int);
            assert(rest.drop_first() =~= es.subrange(i + 1, es.len() as int));
            assert(rest[0] == es[i as int]);
            if vec_contains_str(&self.base_to_derived[i].1, derived) {
                let b = self.base_to_derived[i].0.clone();
                let ghost prev = out.deep_view();
                out.insert(0, b);
                assert(out.deep_view() =~= seq![rest[0].0] + prev);
            }
        }
        assert(es.subrange(0, es.len() as int) =~= es);
        out
    }

    /// Records `derived` as derived from `base`, appending to the entry for
    /// `base` or creating one.
    pub fn add_derived(&mut self, base: &str, derived: &str)
        ensures
            derived_in(final(self).entries(), base@) == Some(
                match derived_in(old(self).entries(), base@) {
                    Some(d) => d.push(derived@),
                    None => seq![derived@],
                },
            ),
            forall|b: Seq<char>| b != base@ ==> #[trigger] derived_in(final(self).entries(), b)
                == derived_in(old(self).entries(), b),
            distinct_bases(old(self).entries()) ==> distinct_bases(final(self).entries()),
    {
        let ghost es = old(self).entries();
        match self.position(base) {
            Some(i) => {
                let name = crate::text::owned(derived);
                let mut entry = self.base_to_derived.remove(i);
                let ghost old_entry = entry_view(entry);
                entry.1.push(name);
                let ghost new_entry = entry_view(entry);
                assert(new_entry.1 =~= old_entry.1.push(derived@));
                self.base_to_derived.insert(i, entry);
                proof {
                    assert(self.entries() =~= es.update(i as int, new_entry));
                    lemma_derived_in_update(es, i as int, new_entry);
                    assert(new_entry.0 == es[i as int].0);
                    if distinct_bases(es) {
                        let t = self.entries();
                        assert forall|p: int, q: int| 0 <= p < q < t.len() implies (#[trigger] t[p]).0 != (#[trigger] t[q]).0 by {
                            assert(t[p].0 == es[p].0 && t[q].0 == es[q].0);
                        }
                    }
                }
            },
            None => {
                let mut v: Vec<String> = Vec::new();
                v.push(crate::text::owned(derived));
                let e = (crate::text::owned(base), v);
                let ghost ev = entry_view(e);
                assert(ev.1 =~= seq![derived@]);
                self.base_to_derived.push(e);
                proof {
                    assert(self.entries() =~= es.push(ev));
                    lemma_derived_in_push(es, ev);
                    if distinct_bases(es) {
                        let t = self.entries();
                        assert forall|p: int, q: int| 0 <= p < q < t.len() implies (#[trigger] t[p]).0 != (#[trigger] t[q]).0 by {
                            assert(t[p] == es[p]);
                            if q < es.len() {
                                assert(t[q] == es[q]);
                            } else {
                                assert(es[p].0 != base@);
                            }
                        }
                    }
                }
            },
        }
    }
}

// ---------------------------------------------------------------------------
// Demangled names
// ---------------------------------------------------------------------------

/// `s` without the first of the kind keywords `class `, `struct `, `union `,
/// `enum ` that it begins with.
pub open spec fn strip_kind_keyword(s: Seq<char>) -> Seq<char> {
    if has_prefix(s, "class "@) {
        s.subrange(6, s.len() as int)
    } else if has_prefix(s, "struct "@) {
        s.subrange(7, s.len() as int)
    } else if has_prefix(s, "union "@) {
        s.subrange(6, s.len() as int)
    } else if has_prefix(s, "enum "@) {
        s.subrange(5, s.len() as int)
    } else {
        s
    }
}

/// A demangled RTTI name made readable: without its trailing
/// `` ::`RTTI Type Descriptor' ``, without a leading kind keyword, and with
/// the spelled-out `std::basic_string` and `std::basic_string_view` of `char`
/// written `std::string` and `std::string_view`.
pub open spec fn clean_rtti_name(s: Seq<char>) -> Seq<char> {
    let a = match find_last(s, "::`RTTI Type Descriptor'"@) {
        Some(p) => s.subrange(0, p),
        None => s,
    };
    let b = strip_kind_keyword(a);
    let c1 = replace_all(
        b,
        "class std::basic_string<char,struct std::char_traits<char>,class std::allocator<char> >"@,
        "std::string"@,
    );
    let c2 = replace_all(
        c1,
        "std::basic_string<char,struct std::char_traits<char>,class std::allocator<char> >"@,
        "std::string"@,
    );
    let c3 = replace_all(
        c2,
        "class std::basic_string_view<char,struct std::char_traits<char> >"@,
        "std::string_view"@,
    );
    replace_all(c3, "std::basic_string_view<char,struct std::char_traits<char> >"@, "std::string_view"@)
}

/// Cleans a demangled RTTI name (see [`clean_rtti_name`]).
pub fn clean_demangled_rtti_name(s: &str) -> (r: String)
    ensures
        r@ == clean_rtti_name(s@),
{
    let cs = chars_of(s);
    let a = match rfind_str(&cs, "::`RTTI Type Descriptor'") {
        Some(p) => {
            proof {
                lemma_find_last_bounds(s@, "::`RTTI Type Descriptor'"@);
            }
            slice_of(&cs, 0, p)
        },
        None => cs,
    };
    proof {
        reveal_strlit("class ");
        reveal_strlit("struct ");
        reveal_strlit("union ");
        reveal_strlit("enum ");
    }
    let b = if starts_with_str(&a, "class ") {
        slice_of(&a, 6, a.len())
    } else if starts_with_str(&a, "struct ") {
        slice_of(&a, 7, a.len())
    } else if starts_with_str(&a, "union ") {
        slice_of(&a, 6, a.len())
    } else if starts_with_str(&a, "enum ") {
        slice_of(&a, 5, a.len())
    } else {
        a
    };
    let c1 = replace_str(
        &b,
        "class std::basic_string<char,struct std::char_traits<char>,class std::allocator<char> >",
        "std::string",
    );
    let c2 = replace_str(
        &c1,
        "std::basic_string<char,struct std::char_traits<char>,class std::allocator<char> >",
        "std::string",
    );
    let c3 = replace_str(&c2, "class std::basic_string_view<char,struct std::char_traits<char> >", "std::string_view");
    let c4 = replace_str(&c3, "std::basic_string_view<char,struct std::char_traits<char> >", "std::string_view");
    string_of(&c4)
}

/// Where the first template argument of `s` ends, scanning from `i` at
/// nesting `depth`: the first top-level `,` or closing `>`, or 0 when there
/// is none.
pub open spec fn first_arg_end(s: Seq<char>, i: int, depth: nat) -> int
    decreases s.len() - i,
{
    if i < 0 || i >= s.len() {
        0
    } else if s[i] == '<' {
        first_arg_end(s, i + 1, depth + 1)
    } else if s[i] == '>' {
        if depth == 0 {
            i
        } else {
            first_arg_end(s, i + 1, (depth - 1) as nat)
        }
    } else if s[i] == ',' && depth == 0 {
        i
    } else {
        first_arg_end(s, i + 1, depth)
    }
}

proof fn lemma_first_arg_end(s: Seq<char>, i: int, depth: nat)
    ensures
        0 <= first_arg_end(s, i, depth) <= s.len(),
    decreases s.len() - i,
{
    if 0 <= i < s.len() {
        if s[i] == '<' {
            lemma_first_arg_end(s, i + 1, depth + 1);
        } else if s[i] == '>' {
            if depth > 0 {
                lemma_first_arg_end(s, i + 1, (depth - 1) as nat);
            }
        } else if !(s[i] == ',' && depth == 0) {
            lemma_first_arg_end(s, i + 1, depth);
        }
    }
}

/// The first template argument of an argument list (the text up to its
/// first top-level `,` or its closing `>`, trimmed), if that text is not
/// empty before trimming.
pub open spec fn first_template_argument(s: Seq<char>) -> Option<Seq<char>> {
    let end = first_arg_end(s, 0, 0);
    if end > 0 {
        Some(trim(s.subrange(0, end)))
    } else {
        None
    }
}

/// The first template argument of an argument list such as `A<B>, C>` (see
/// [`first_template_argument`]).
pub fn extract_first_template_argument(s: &str) -> (r: Option<String>)
    ensures
        r.deep_view() == first_template_argument(s@),
{
    let cs = chars_of(s);
    let mut depth: usize = 0;
    let mut i: usize = 0;
    let mut end: usize = 0;
    while i < cs.len()
        invariant_except_break
            end == 0,
            first_arg_end(s@, 0, 0) == first_arg_end(s@, i as int, depth as nat),
        invariant
            i <= cs.len(),
            cs@ == s@,
            depth <= i,
        ensures
            end == first_arg_end(s@, 0, 0),
        decreases cs.len() - i,
    {
        let c = cs[i];
        if c == '<' {
            depth = depth + 1;
        } else if c == '>' {
            if depth == 0 {
                end = i;
                break;
            }
            depth = depth - 1;
        } else if c == ',' {
            if depth == 0 {
                end = i;
                break;
            }
        }
        i = i + 1;
    }
    proof {
        lemma_first_arg_end(s@, 0, 0);
    }
    assert(end == first_arg_end(s@, 0, 0));
    if end > 0 {
        let head = slice_of(&cs, 0, end);
        let t = trimmed(&head);
        Some(string_of(&t))
    } else {
        None
    }
}

// ---------------------------------------------------------------------------
// Demangling
// ---------------------------------------------------------------------------

/// What `msvc_demangler::demangle` makes of `symbol` with
/// `DemangleFlags::COMPLETE`, when it can parse it.
pub uninterp spec fn msvc_demangled(symbol: Seq<char>) -> Option<Seq<char>>;

/// The longest symbol handed to the demangler. Its parser recurses for each
/// nested type it reads, with no limit of its own, so a bound on the length
/// bounds the depth of its stack.
pub const DEMANGLE_MAX_LEN: usize = 1024;

/// `s[i..i + 8]` is a run of eight characters in `A..=P` (hex digits in the
/// mangling's number syntax) directly followed by the `@` that ends such a
/// number.
pub open spec fn hex_run_at(s: Seq<char>, i: int) -> bool {
    &&& 0 <= i
    &&& i + 8 < s.len()
    &&& forall|k: int| 0 <= k < 8 ==> 'A' <= #[trigger] s[i + k] <= 'P'
    &&& s[i + 8] == '@'
}

/// A `?$` at `i` is followed, where the symbol goes on, by two characters
/// that are not below `A`.
pub open spec fn escape_ok_at(s: Seq<char>, i: int) -> bool {
    (0 <= i && i + 1 < s.len() && s[i] == '?' && s[i + 1] == '$') ==> ((i + 2 >= s.len() || s[i + 2]
        >= 'A') && (i + 3 >= s.len() || s[i + 3] >= 'A'))
}

/// The symbols that are handed to the demangler: ASCII, at most
/// [`DEMANGLE_MAX_LEN`] characters, with no `$TSS` guard name (whose decimal
/// counter is accumulated in an `i32` unchecked), no `?$` followed by a
/// character below `A` (the byte escape of an encoded string subtracts `A`
/// from both), and no number of eight or more hex digits ended by `@` (a
/// number that long can reach `i32::MIN`, which the parser negates). On
/// these inputs the demangler's source shows no arithmetic that can
/// overflow; the others are not demangled.
pub open spec fn demangle_safe(s: Seq<char>) -> bool {
    &&& s.len() <= DEMANGLE_MAX_LEN
    &&& forall|i: int| 0 <= i < s.len() ==> (#[trigger] s[i]) < '\u{80}'
    &&& !contains_seq(s, "$TSS"@)
    &&& forall|i: int| #[trigger] escape_ok_at(s, i)
    &&& forall|i: int| !#[trigger] hex_run_at(s, i)
}

/// Tests [`demangle_safe`].
pub fn is_demangle_safe(symbol: &str) -> (r: bool)
    ensures
        r == demangle_safe(symbol@),
{
    let s = chars_of(symbol);
    if s.len() > DEMANGLE_MAX_LEN {
        return false;
    }
    let mut i: usize = 0;
    let mut run: usize = 0;
    while i < s.len()
        invariant
            i <= s.len() <= DEMANGLE_MAX_LEN,
            s@ == symbol@,
            run <= i,
            run <= 8,
            forall|k: int| 0 <= k < i ==> (#[trigger] s@[k]) < '\u{80}',
            forall|k: int| k < i ==> #[trigger] escape_ok_at(s@, k),
            forall|k: int| k + 9 <= i ==> !#[trigger] hex_run_at(s@, k),
            forall|k: int| i - run <= k < i ==> 'A' <= #[trigger] s@[k] <= 'P',
            run < 8 && i - run > 0 ==> !('A' <= s@[i - run - 1] <= 'P'),
        decreases s.len() - i,
    {
        let c = s[i];
        if c >= '\u{80}' {
            return false;
        }
        if c == '?' && i + 1 < s.len() && s[i + 1] == '$' {
            if i + 2 < s.len() && 'A' > s[i + 2] {
                assert(!escape_ok_at(s@, i as int));
                return false;
            }
            if i + 3 < s.len() && 'A' > s[i + 3] {
                assert(!escape_ok_at(s@, i as int));
                return false;
            }
        }
        if c == '@' && run == 8 {
            assert(hex_run_at(s@, i - 8)) by {
                assert forall|k: int| 0 <= k < 8 implies 'A' <= #[trigger] s@[i - 8 + k] <= 'P' by {
                    assert(i - run <= i - 8 + k < i);
                }
            }
            return false;
        }
        proof {
            assert forall|k: int| k + 9 <= i + 1 implies !#[trigger] hex_run_at(s@, k) by {
                if k + 9 == i + 1 && hex_run_at(s@, k) {
                    assert(s@[k + 8] == c);
                    assert(run < 8);
                    if i - run > 0 {
                        assert(k <= i - run - 1);
                        assert('A' <= s@[k + (i - run - 1 - k)] <= 'P');
                    } else {
                        assert(k < 0);
                    }
                }
            }
            assert(escape_ok_at(s@, i as int));
        }
        if 'A' <= c && c <= 'P' {
            if run < 8 {
                run = run + 1;
            }
        } else {
            run = 0;
        }
        i = i + 1;
    }
    proof {
        assert forall|k: int| #[trigger] escape_ok_at(s@, k) by {
            if k >= i {
                assert(!(0 <= k && k + 1 < s@.len()));
            }
        }
        assert forall|k: int| !#[trigger] hex_run_at(s@, k) by {
        }
    }
    let guard = contains_str(&s, "$TSS");
    !guard
}

/// `msvc_demangler::demangle(symbol, DemangleFlags::COMPLETE)`, with a parse
/// error taken as `None`. The contract names the result and states nothing
/// of the grammar. The parser recurses without a depth limit and, built with
/// overflow checks, panics on the patterns that [`demangle_safe`] rules out,
/// so only such symbols are handed to it.
#[verifier::external_body]
fn demangle_symbol(symbol: &str) -> (r: Option<String>)
    requires
        demangle_safe(symbol@),
    ensures
        r.deep_view() == msvc_demangled(symbol@),
{
    msvc_demangler::demangle(symbol, msvc_demangler::DemangleFlags::COMPLETE).ok()
}

/// What the demangler makes of `symbol` when it is handed to it (see
/// [`demangle_safe`]); `None` for the symbols that are not.
pub open spec fn guarded_demangle(symbol: Seq<char>) -> Option<Seq<char>> {
    if demangle_safe(symbol) {
        msvc_demangled(symbol)
    } else {
        None
    }
}

/// Demangles `symbol` when [`demangle_safe`] admits it.
fn demangle_if_safe(symbol: &str) -> (r: Option<String>)
    ensures
        r.deep_view() == guarded_demangle(symbol@),
{
    if is_demangle_safe(symbol) {
        demangle_symbol(symbol)
    } else {
        None
    }
}

/// The type-descriptor symbol `??_R0<x>@8` for the mangled name body `x`.
pub open spec fn r0_symbol(x: Seq<char>) -> Seq<char> {
    "??_R0"@ + x + "@8"@
}

fn r0_symbol_of(x: &[char]) -> (r: String)
    ensures
        r@ == r0_symbol(x@),
{
    let mut v: Vec<char> = Vec::new();
    append_str(&mut v, "??_R0");
    append(&mut v, x);
    append_str(&mut v, "@8");
    string_of(&v)
}

/// `s` without its trailing `c` characters.
pub open spec fn trim_end_char(s: Seq<char>, c: char) -> Seq<char>
    decreases s.len(),
{
    if s.len() > 0 && s.last() == c {
        trim_end_char(s.drop_last(), c)
    } else {
        s
    }
}

/// The pieces of `s` between occurrences of `c`, scanning from `i` with
/// `cur` already read (`str::split` with a character).
pub open spec fn split_from(s: Seq<char>, c: char, i: int, cur: Seq<char>) -> Seq<Seq<char>>
    decreases s.len() - i,
{
    if i < 0 || i >= s.len() {
        seq![cur]
    } else if s[i] == c {
        seq![cur] + split_from(s, c, i + 1, Seq::empty())
    } else {
        split_from(s, c, i + 1, cur.push(s[i]))
    }
}

/// The pieces of `s` between occurrences of `c`.
pub open spec fn split_on(s: Seq<char>, c: char) -> Seq<Seq<char>> {
    split_from(s, c, 0, Seq::empty())
}

fn split_chars(s: &[char], c: char) -> (r: Vec<Vec<char>>)
    ensures
        r.deep_view() == split_on(s@, c),
{
    let mut out: Vec<Vec<char>> = Vec::new();
    let mut cur: Vec<char> = Vec::new();
    let mut i: usize = 0;
    while i < s.len()
        invariant
            i <= s.len(),
            out.deep_view() + split_from(s@, c, i as int, cur@) == split_on(s@, c),
        decreases s.len() - i,
    {
        let ghost before = out.deep_view();
        if s[i] == c {
            let ghost cv = cur@;
            push_chars(&mut out, cur);
            cur = Vec::new();
            assert(before + split_from(s@, c, i as int, cv) =~= out.deep_view() + split_from(
                s@,
                c,
                i + 1,
                cur@,
            ));
        } else {
            cur.push(s[i]);
        }
        i = i + 1;
    }
    let ghost before = out.deep_view();
    let ghost cv = cur@;
    push_chars(&mut out, cur);
    assert(before + split_from(s@, c, i as int, cv) =~= out.deep_view());
    out
}

/// The readable name of a mangled type name such as
/// `.?AVName@Space@@`: the demangled type descriptor, cleaned, or, when the
/// demangler cannot read it, the `@`-separated components in reverse order
/// joined with `::`. Names shorter than four characters stay as they are.
pub open spec fn demangled_name(m: Seq<char>) -> Seq<char> {
    if m.len() < 4 {
        m
    } else {
        match guarded_demangle(r0_symbol(m.subrange(1, m.len() as int))) {
            Some(d) => clean_rtti_name(d),
            None => join_seqs(split_on(trim_end_char(m.subrange(4, m.len() as int), '@'), '@').reverse(), "::"@),
        }
    }
}

/// The first `n` characters of `s` (at most) are ASCII.
pub open spec fn ascii_head(s: Seq<char>, n: int) -> bool {
    forall|i: int| 0 <= i < n && i < s.len() ==> (#[trigger] s[i]) < '\u{80}'
}

/// Demangles an RTTI type name (see [`demangled_name`]). Its first four
/// characters must be ASCII, so that they are as many bytes.
pub fn demangle_type_name(mangled: &str) -> (r: String)
    requires
        ascii_head(mangled@, 4),
    ensures
        r@ == demangled_name(mangled@),
{
    let cs = chars_of(mangled);
    if cs.len() < 4 {
        return owned(mangled);
    }
    let body = slice_of(&cs, 1, cs.len());
    let symbol = r0_symbol_of(&body);
    match demangle_if_safe(symbol.as_str()) {
        Some(dem) => clean_demangled_rtti_name(dem.as_str()),
        None => {
            let mut inner = slice_of(&cs, 4, cs.len());
            let ghost full = inner@;
            while inner.len() > 0 && inner[inner.len() - 1] == '@'
                invariant
                    trim_end_char(inner@, '@') == trim_end_char(full, '@'),
                decreases inner.len(),
            {
                let ghost before = inner@;
                inner.pop();
                assert(inner@ =~= before.drop_last());
            }
            let parts = split_chars(&inner, '@');
            let mut rev: Vec<Vec<char>> = Vec::new();
            let mut k: usize = parts.len();
            while k > 0
                invariant
                    k <= parts.len(),
                    rev.deep_view() == parts.deep_view().subrange(k as int, parts.len() as int).reverse(),
                decreases k,
            {
                k = k - 1;
                let ghost before = rev.deep_view();
                let piece = slice_of(&parts[k], 0, parts[k].len());
                assert(piece@ == parts.deep_view()[k as int]);
                push_chars(&mut rev, piece);
                assert(rev.deep_view() =~= parts.deep_view().subrange(k as int, parts.len() as int).reverse());
            }
            assert(parts.deep_view().subrange(0, parts.len() as int) =~= parts.deep_view());
            let sep = chars_of("::");
            string_of(&join(&rev, &sep))
        },
    }
}

// ---------------------------------------------------------------------------
// Serializable-member registrations
// ---------------------------------------------------------------------------

/// The value type a demangled `SerializableMember<..>` name registers, read
/// from its first template argument (an `ISerializableMember` is no
/// registration).
pub open spec fn smember_from_demangled(d: Seq<char>) -> Option<Seq<char>> {
    match find_first(d, "SerializableMember<"@) {
        Some(start) => if start == 0 || d[start - 1] != 'I' {
            match first_template_argument(d.subrange(start + 19, d.len() as int)) {
                Some(a) => {
                    let c = clean_rtti_name(a);
                    if !contains_seq(c, "SerializedType"@) && !contains_seq(c, "ISerializableMember"@) {
                        Some(c)
                    } else {
                        None
                    }
                },
                None => None,
            }
        } else {
            None
        },
        None => None,
    }
}

/// The value type a mangled `?$SerializableMember@..` name registers, read
/// by demangling its argument list as a type descriptor.
pub open spec fn smember_from_mangled(m: Seq<char>) -> Option<Seq<char>> {
    match find_first(m, "?$SerializableMember@"@) {
        Some(pos) => if pos == 0 || m[pos - 1] != 'I' {
            match guarded_demangle(r0_symbol(m.subrange(pos + 21, m.len() as int))) {
                Some(dem) => {
                    let c = clean_rtti_name(dem);
                    if !contains_seq(c, "SerializedType"@) && !contains_seq(c, "ISerializableMember"@) {
                        Some(c)
                    } else {
                        None
                    }
                },
                None => None,
            }
        } else {
            None
        },
        None => None,
    }
}

/// The value type of a serializable-member registration, from its
/// demangled name or else its mangled name.
pub open spec fn smember_type(d: Seq<char>, m: Seq<char>) -> Option<Seq<char>> {
    match smember_from_demangled(d) {
        Some(t) => Some(t),
        None => smember_from_mangled(m),
    }
}

/// Reads the value type of a `SerializableMember` vtable's type (see
/// [`smember_type`]).
pub fn extract_smember_type(demangled: &str, mangled: &str) -> (r: Option<String>)
    ensures
        r.deep_view() == smember_type(demangled@, mangled@),
{
    let d = chars_of(demangled);
    proof {
        reveal_strlit("SerializableMember<");
        reveal_strlit("?$SerializableMember@");
    }
    if let Some(start) = find_str(&d, "SerializableMember<") {
        proof {
            lemma_find_first_bounds(d@, "SerializableMember<"@);
            assert("SerializableMember<"@.len() == 19);
            assert(start + 19 <= d@.len());
        }
        if start == 0 || d[start - 1] != 'I' {
            let dlen = d.len();
            let inner = string_of(&slice_of(&d, start + 19, dlen));
            if let Some(first) = extract_first_template_argument(inner.as_str()) {
                let cleaned = clean_demangled_rtti_name(first.as_str());
                let cv = chars_of(cleaned.as_str());
                if !contains_str(&cv, "SerializedType") && !contains_str(&cv, "ISerializableMember") {
                    return Some(cleaned);
                }
            }
        }
    }
    let m = chars_of(mangled);
    if let Some(pos) = find_str(&m, "?$SerializableMember@") {
        proof {
            lemma_find_first_bounds(m@, "?$SerializableMember@"@);
            assert(pos + 21 <= m@.len());
        }
        assert("?$SerializableMember@"@.len() == 21);
        if pos == 0 || m[pos - 1] != 'I' {
            let mlen = m.len();
            let inner = slice_of(&m, pos + 21, mlen);
            let symbol = r0_symbol_of(&inner);
            if let Some(dem) = demangle_if_safe(symbol.as_str()) {
                let cleaned = clean_demangled_rtti_name(dem.as_str());
                let cv = chars_of(cleaned.as_str());
                if !contains_str(&cv, "SerializedType") && !contains_str(&cv, "ISerializableMember") {
                    return Some(cleaned);
                }
            }
        }
    }
    None
}

/// Where the `n`-th top-level argument of the argument list `s` starts.
pub open spec fn nth_arg_start(s: Seq<char>, n: nat) -> Option<int>
    decreases n,
{
    if n == 0 {
        Some(0)
    } else {
        match nth_arg_start(s, (n - 1) as nat) {
            Some(st) => if 0 <= st <= s.len() {
                let e = st + first_arg_end(s.subrange(st, s.len() as int), 0, 0);
                if e < s.len() && s[e] == ',' {
                    Some(e + 1)
                } else {
                    None
                }
            } else {
                None
            },
            None => None,
        }
    }
}

/// The owner type of a `SerializableMember<V, S, K, Owner>` argument list:
/// its fourth argument, cleaned.
pub open spec fn owner_argument(inner: Seq<char>) -> Option<Seq<char>> {
    match nth_arg_start(inner, 3) {
        Some(st) => if 0 <= st <= inner.len() {
            match first_template_argument(inner.subrange(st, inner.len() as int)) {
                Some(o) => Some(clean_rtti_name(o)),
                None => None,
            }
        } else {
            None
        },
        None => None,
    }
}

/// What a serializable-member registration tells: the value type it
/// registers and the type that owns the member.
#[derive(Debug, Clone, PartialEq, Eq)]
pub struct SmemberMetadata {
    pub value_type: String,
    pub owner_type: Option<String>,
}

/// The metadata of a registration: from the demangled name, the value type
/// and owner; else from the mangled name, the value type alone.
pub open spec fn smember_metadata(d: Seq<char>, m: Seq<char>) -> Option<(Seq<char>, Option<Seq<char>>)> {
    match smember_from_demangled(d) {
        Some(t) => {
            let start = find_first(d, "SerializableMember<"@)->0;
            Some((t, owner_argument(d.subrange(start + 19, d.len() as int))))
        },
        None => match smember_from_mangled(m) {
            Some(t) => Some((t, None)),
            None => None,
        },
    }
}

/// Where the first argument of `s` ends (see [`first_arg_end`]).
fn first_arg_end_of(s: &[char]) -> (e: usize)
    ensures
        e == first_arg_end(s@, 0, 0),
{
    let mut depth: usize = 0;
    let mut i: usize = 0;
    let mut end: usize = 0;
    while i < s.len()
        invariant_except_break
            end == 0,
            first_arg_end(s@, 0, 0) == first_arg_end(s@, i as int, depth as nat),
        invariant
            i <= s.len(),
            depth <= i,
        ensures
            end == first_arg_end(s@, 0, 0),
        decreases s.len() - i,
    {
        let c = s[i];
        if c == '<' {
            depth = depth + 1;
        } else if c == '>' {
            if depth == 0 {
                end = i;
                break;
            }
            depth = depth - 1;
        } else if c == ',' {
            if depth == 0 {
                end = i;
                break;
            }
        }
        i = i + 1;
    }
    end
}

fn owner_of(inner: &[char]) -> (r: Option<String>)
    ensures
        r.deep_view() == owner_argument(inner@),
{
    let mut st: usize = 0;
    let mut k: usize = 0;
    assert(nth_arg_start(inner@, 0) == Some(0int));
    while k < 3
        invariant
            k <= 3,
            st <= inner.len(),
            nth_arg_start(inner@, k as nat) == Some(st as int),
        decreases 3 - k,
    {
        let sub = slice_of(inner, st, inner.len());
        let e = first_arg_end_of(&sub);
        proof {
            lemma_first_arg_end(sub@, 0, 0);
        }
        let at = st + e;
        if at < inner.len() && inner[at] == ',' {
            st = at + 1;
        } else {
            assert(nth_arg_start(inner@, (k + 1) as nat) is None);
            assert(owner_argument(inner@) is None) by {
                if k == 0 {
                    assert(nth_arg_start(inner@, 2) is None);
                }
                if k <= 1 {
                    assert(nth_arg_start(inner@, 3) is None);
                }
            }
            return None;
        }
        k = k + 1;
    }
    let rest = string_of(&slice_of(inner, st, inner.len()));
    match extract_first_template_argument(rest.as_str()) {
        Some(o) => Some(clean_demangled_rtti_name(o.as_str())),
        None => None,
    }
}

/// Reads the value type and owner of a `SerializableMember` vtable's type
/// (see [`smember_metadata`]).
pub fn extract_smember_metadata(demangled: &str, mangled: &str) -> (r: Option<SmemberMetadata>)
    ensures
        match smember_metadata(demangled@, mangled@) {
            Some((t, o)) => r matches Some(x) && x.value_type@ == t && x.owner_type.deep_view() == o,
            None => r is None,
        },
{
    let d = chars_of(demangled);
    proof {
        reveal_strlit("SerializableMember<");
    }
    if let Some(start) = find_str(&d, "SerializableMember<") {
        proof {
            lemma_find_first_bounds(d@, "SerializableMember<"@);
            assert(start + 19 <= d@.len());
        }
        if start == 0 || d[start - 1] != 'I' {
            let dlen = d.len();
            let inner = slice_of(&d, start + 19, dlen);
            let inner_s = string_of(&inner);
            if let Some(first) = extract_first_template_argument(inner_s.as_str()) {
                let cleaned = clean_demangled_rtti_name(first.as_str());
                let cv = chars_of(cleaned.as_str());
                if !contains_str(&cv, "SerializedType") && !contains_str(&cv, "ISerializableMember") {
                    let owner = owner_of(&inner);
                    return Some(SmemberMetadata { value_type: cleaned, owner_type: owner });
                }
            }
        }
    }
    match extract_smember_type("", mangled) {
        Some(t) => {
            proof {
                reveal_strlit("");
                assert(find_first(""@, "SerializableMember<"@) is None) by {
                    lemma_find_first_bounds(""@, "SerializableMember<"@);
                }
            }
            Some(SmemberMetadata { value_type: t, owner_type: None })
        },
        None => {
            proof {
                reveal_strlit("");
                lemma_find_first_bounds(""@, "SerializableMember<"@);
            }
            None
        },
    }
}

// ---------------------------------------------------------------------------
// The RTTI engine
// ---------------------------------------------------------------------------

/// An RTTI type descriptor: where it is, and its mangled and readable names.
#[derive(Debug, Clone, PartialEq, Eq)]
pub struct TypeDescriptor {
    pub rva: u32,
    pub mangled_name: String,
    pub demangled_name: String,
}

/// An RTTI complete object locator.
#[derive(Debug, Clone, Copy, PartialEq, Eq, Structural)]
pub struct CompleteObjectLocator {
    pub rva: u32,
    pub signature: u32,
    pub offset: u32,
    pub cd_offset: u32,
    pub p_type_descriptor: u32,
    pub p_class_descriptor: u32,
    pub p_self: u32,
}

/// What RTTI tells of an image: its type descriptors (by RVA), which type
/// each vtable belongs to and the first vtable of each type, the vtables of
/// serializable-member registrations with the type they serialize and the
/// type that owns the member, and the class hierarchy.
pub struct RttiEngine {
    pub type_descriptors: RvaMap<TypeDescriptor>,
    pub vtable_to_type: RvaMap<String>,
    pub type_to_vtable: NameMap<u32>,
    pub smember_vtables: RvaMap<String>,
    pub smember_owners: RvaMap<String>,
    pub hierarchy: ClassHierarchy,
}

impl RttiEngine {
    /// The maps are well formed.
    pub open spec fn wf(&self) -> bool {
        &&& self.type_descriptors.wf()
        &&& self.vtable_to_type.wf()
        &&& self.type_to_vtable.wf()
        &&& self.smember_vtables.wf()
        &&& self.smember_owners.wf()
    }
}


// ---------------------------------------------------------------------------
// Building the engine: type descriptors
// ---------------------------------------------------------------------------

/// The bytes and virtual address of the section named `name`.
pub open spec fn section_at(pe: &PeImage, name: Seq<char>) -> Option<(Seq<u8>, u32)> {
    match (pe.section_spec_data(name), first_section_named(pe.sections_spec(), name)) {
        (Some(d), Some(s)) => Some((d, s.virtual_address)),
        _ => None,
    }
}

/// `d` holds `.?AV` or `.?AU` at `pos`.
pub open spec fn type_name_bytes(d: Seq<u8>, pos: int) -> bool {
    &&& 0 <= pos
    &&& pos + 4 <= d.len()
    &&& d[pos] == 46u8
    &&& d[pos + 1] == 63u8
    &&& d[pos + 2] == 65u8
    &&& (d[pos + 3] == 86u8 || d[pos + 3] == 85u8)
}

/// `m` begins with `.?AV` or `.?AU`.
pub open spec fn rtti_type_prefix(m: Seq<char>) -> bool {
    m.len() >= 4 && m[0] == '.' && m[1] == '?' && m[2] == 'A' && (m[3] == 'V' || m[3] == 'U')
}

/// The name of a type descriptor begins at `pos` of section `name`: the
/// bytes there read `.?AV` or `.?AU`, the descriptor sixteen bytes before
/// has an RVA, and the zero-terminated text there is such a name.
pub open spec fn descriptor_name_at(pe: &PeImage, name: Seq<char>, pos: int) -> bool {
    match section_at(pe, name) {
        Some((d, va)) => {
            &&& type_name_bytes(d, pos)
            &&& va + pos <= u32::MAX
            &&& va + pos >= 16
            &&& cstring_at(pe.raw@, pe.sections_spec(), (va + pos) as u32) matches Some(m) && rtti_type_prefix(m)
        },
        None => false,
    }
}

/// Section `name` holds the name of a type descriptor at RVA `k`, before
/// position `bound`.
pub open spec fn descriptor_before(pe: &PeImage, name: Seq<char>, k: u32, bound: int) -> bool {
    match section_at(pe, name) {
        Some((d, va)) => 0 <= k + 16 - va < bound && descriptor_name_at(pe, name, k + 16 - va),
        None => false,
    }
}

/// Section `name` holds the name of a type descriptor at RVA `k`.
pub open spec fn descriptor_in(pe: &PeImage, name: Seq<char>, k: u32) -> bool {
    descriptor_before(pe, name, k, u32::MAX as int + 1)
}

/// One of the sections `names` holds a type descriptor at `k`.
pub open spec fn descriptor_in_any(pe: &PeImage, names: Seq<Seq<char>>, k: u32) -> bool
    decreases names.len(),
{
    names.len() > 0 && (descriptor_in_any(pe, names.drop_last(), k) || descriptor_in(pe, names.last(), k))
}

/// The sections searched for type descriptors.
pub open spec fn descriptor_sections() -> Seq<Seq<char>> {
    seq![".data"@, ".rdata"@]
}

/// There is a type descriptor at `k`, in `.data` or `.rdata`.
pub open spec fn has_descriptor(pe: &PeImage, k: u32) -> bool {
    descriptor_in_any(pe, descriptor_sections(), k)
}

/// The mangled name of the type descriptor at `k`.
pub open spec fn descriptor_mangled(pe: &PeImage, k: u32) -> Seq<char> {
    cstring_at(pe.raw@, pe.sections_spec(), (k + 16) as u32)->0
}

/// The readable name of the type descriptor at `k`.
pub open spec fn descriptor_name(pe: &PeImage, k: u32) -> Seq<char> {
    demangled_name(descriptor_mangled(pe, k))
}

/// The table holds, for each RVA at which the sections `names` (or section
/// `extra` before position `bound`) hold a type descriptor, that descriptor
/// with its names, and nothing else.
pub open spec fn descriptors_hold(pe: &PeImage, tds: &RvaMap<TypeDescriptor>, names: Seq<Seq<char>>, extra: Seq<char>, bound: int) -> bool {
    &&& tds.wf()
    &&& forall|k: u32| #![trigger tds.spec_get(k)]
        (tds.spec_get(k) is Some <==> (descriptor_in_any(pe, names, k) || descriptor_before(pe, extra, k, bound)))
        && (tds.spec_get(k) matches Some(td) ==> td.rva == k && td.mangled_name@ == descriptor_mangled(pe, k)
            && td.demangled_name@ == descriptor_name(pe, k))
}

/// Adds the type descriptors whose names lie in section `name`.
fn scan_descriptors_in(pe: &PeImage, name: &str, tds: &mut RvaMap<TypeDescriptor>, Ghost(prev): Ghost<Seq<Seq<char>>>)
    requires
        descriptors_hold(pe, old(tds), prev, name@, 0),
    ensures
        descriptors_hold(pe, final(tds), prev.push(name@), name@, 0),
{
    let ghost nm = name@;
    let (data, va) = match (pe.section_data(name), pe.section_by_name(name)) {
        (Some(d), Some(s)) => (d, s.virtual_address),
        _ => {
            assert forall|k: u32| descriptor_in_any(pe, prev.push(nm), k) == descriptor_in_any(pe, prev, k) by {
                assert(prev.push(nm).drop_last() =~= prev);
            }
            return;
        },
    };
    assert(section_at(pe, nm) == Some((data@, va)));
    let mut pos: usize = 0;
    while data.len() >= 4 && pos <= data.len() - 4
        invariant
            pos <= data.len(),
            section_at(pe, nm) == Some((data@, va)),
            descriptors_hold(pe, tds, prev, nm, pos as int),
        decreases data.len() - pos,
    {
        let hit = data[pos] == 46u8 && data[pos + 1] == 63u8 && data[pos + 2] == 65u8 && (data[pos + 3] == 86u8
            || data[pos + 3] == 85u8);
        let mut found = false;
        if hit && (va as u64) + (pos as u64) <= 4294967295u64 {
            let string_rva = va + (pos as u32);
            if string_rva >= 16 {
                if let Some(mangled) = pe.read_cstring(string_rva) {
                    let mc = chars_of(mangled);
                    if mc.len() >= 4 && mc[0] == '.' && mc[1] == '?' && mc[2] == 'A' && (mc[3] == 'V' || mc[3] == 'U') {
                        let td_rva = string_rva - 16;
                        let demangled = demangle_type_name(mangled);
                        assert((td_rva + 16) as u32 == string_rva);
                        tds.insert(td_rva, TypeDescriptor { rva: td_rva, mangled_name: owned(mangled), demangled_name: demangled });
                        found = true;
                        proof {
                            assert(descriptor_name_at(pe, nm, pos as int));
                            assert forall|k: u32| #![trigger tds.spec_get(k)]
                                (tds.spec_get(k) is Some <==> (descriptor_in_any(pe, prev, k) || descriptor_before(pe, nm, k, pos + 1)))
                                && (tds.spec_get(k) matches Some(td) ==> td.rva == k && td.mangled_name@ == descriptor_mangled(pe, k)
                                    && td.demangled_name@ == descriptor_name(pe, k)) by {
                                if k != td_rva {
                                    assert(k + 16 - va != pos);
                                }
                            }
                        }
                    }
                }
            }
        }
        if !found {
            assert(!descriptor_name_at(pe, nm, pos as int));
            assert forall|k: u32| descriptor_before(pe, nm, k, pos + 1) == descriptor_before(pe, nm, k, pos as int) by {}
        }
        pos = pos + 1;
    }
    assert forall|k: u32| descriptor_before(pe, nm, k, pos as int) == descriptor_in(pe, nm, k) by {
        if descriptor_in(pe, nm, k) {
            assert(type_name_bytes(data@, k + 16 - va));
        }
    }
    assert forall|k: u32| descriptor_in_any(pe, prev.push(nm), k) == (descriptor_in_any(pe, prev, k) || descriptor_in(pe, nm, k)) by {
        assert(prev.push(nm).drop_last() =~= prev);
    }
}

/// The type descriptors of the image, keyed by RVA: each one whose name in
/// `.data` or `.rdata` begins `.?AV` or `.?AU`.
fn scan_type_descriptors(pe: &PeImage) -> (r: RvaMap<TypeDescriptor>)
    ensures
        descriptors_hold(pe, &r, descriptor_sections(), ""@, 0),
{
    let mut tds: RvaMap<TypeDescriptor> = RvaMap::new();
    proof {
        assert forall|k: u32| #![trigger tds.spec_get(k)] tds.spec_get(k) is None by {
            tds.lemma_rva_domain(k);
        }
        assert(Seq::<Seq<char>>::empty().push(".data"@).drop_last() =~= Seq::<Seq<char>>::empty());
    }
    let ghost none = Seq::<Seq<char>>::empty();
    scan_descriptors_in(pe, ".data", &mut tds, Ghost(none));
    proof {
        assert forall|k: u32| !descriptor_before(pe, ".rdata"@, k, 0) by {}
    }
    let ghost first = seq![".data"@];
    scan_descriptors_in(pe, ".rdata", &mut tds, Ghost(first));
    proof {
        assert(seq![".data"@].push(".rdata"@) =~= descriptor_sections());
        assert forall|k: u32| !descriptor_before(pe, ""@, k, 0) by {}
    }
    tds
}

// ---------------------------------------------------------------------------
// Building the engine: complete object locators
// ---------------------------------------------------------------------------

/// The complete object locator at position `pos` of `.rdata`: a 4-aligned
/// record of signature 1 whose self pointer is its own RVA and whose type
/// descriptor is known.
#[verifier::opaque]
pub open spec fn locator_at(pe: &PeImage, pos: int) -> Option<CompleteObjectLocator> {
    match section_at(pe, ".rdata"@) {
        Some((d, va)) => if 0 <= pos && pos % 4 == 0 && pos + 24 <= d.len() && va + pos <= u32::MAX {
            let rva = (va + pos) as u32;
            let sig = le_u32(d, pos);
            let p_self = le_u32(d, pos + 20);
            let p_td = le_u32(d, pos + 12);
            if sig == 1 && p_self == rva && has_descriptor(pe, p_td) {
                Some(
                    CompleteObjectLocator {
                        rva,
                        signature: sig,
                        offset: le_u32(d, pos + 4),
                        cd_offset: le_u32(d, pos + 8),
                        p_type_descriptor: p_td,
                        p_class_descriptor: le_u32(d, pos + 16),
                        p_self,
                    },
                )
            } else {
                None
            }
        } else {
            None
        },
        None => None,
    }
}

/// The complete object locator at RVA `k`.
pub open spec fn locator(pe: &PeImage, k: u32) -> Option<CompleteObjectLocator> {
    match section_at(pe, ".rdata"@) {
        Some((d, va)) => locator_at(pe, k - va),
        None => None,
    }
}

/// The descriptor table holds exactly the known descriptors.
pub open spec fn descriptor_keys(pe: &PeImage, tds: &RvaMap<TypeDescriptor>) -> bool {
    tds.wf() && forall|k: u32| #[trigger] tds.spec_get(k) is Some <==> has_descriptor(pe, k)
}

/// The locator at position `pos` of `rdata` (see [`locator_at`]).
fn locator_here(pe: &PeImage, tds: &RvaMap<TypeDescriptor>, rdata: &[u8], va: u32, pos: usize) -> (r: Option<CompleteObjectLocator>)
    requires
        section_at(pe, ".rdata"@) == Some((rdata@, va)),
        pos % 4 == 0,
        pos + 24 <= rdata@.len(),
        descriptor_keys(pe, tds),
    ensures
        r == locator_at(pe, pos as int),
{
    reveal(locator_at);
    if (va as u64) + (pos as u64) > 4294967295u64 {
        return None;
    }
    let col_rva = va + (pos as u32);
    let sig = read_u32_le(rdata, pos);
    let p_self = read_u32_le(rdata, pos + 20);
    if sig != 1 || p_self != col_rva {
        return None;
    }
    let p_td = read_u32_le(rdata, pos + 12);
    if !tds.contains_key(p_td) {
        return None;
    }
    Some(CompleteObjectLocator {
        rva: col_rva,
        signature: sig,
        offset: read_u32_le(rdata, pos + 4),
        cd_offset: read_u32_le(rdata, pos + 8),
        p_type_descriptor: p_td,
        p_class_descriptor: read_u32_le(rdata, pos + 16),
        p_self,
    })
}

proof fn lemma_no_locator(pe: &PeImage, d: Seq<u8>, va: u32, q: int)
    requires
        section_at(pe, ".rdata"@) == Some((d, va)),
        q < 0 || q % 4 != 0 || q + 24 > d.len(),
    ensures
        locator_at(pe, q) is None,
{
    reveal(locator_at);
}

proof fn lemma_locator_rva(pe: &PeImage, d: Seq<u8>, va: u32, q: int)
    requires
        section_at(pe, ".rdata"@) == Some((d, va)),
    ensures
        locator_at(pe, q) matches Some(c) ==> c.rva == va + q && has_descriptor(pe, c.p_type_descriptor),
{
    reveal(locator_at);
}

/// The locators of `.rdata` that lie before position `bound`.
pub open spec fn locator_below(pe: &PeImage, va: u32, k: u32, bound: int) -> Option<CompleteObjectLocator> {
    if 0 <= k - va < bound {
        locator_at(pe, k - va)
    } else {
        None
    }
}

/// The complete object locators of `.rdata`, keyed by RVA.
fn scan_locators(pe: &PeImage, tds: &RvaMap<TypeDescriptor>) -> (r: RvaMap<CompleteObjectLocator>)
    requires
        descriptor_keys(pe, tds),
    ensures
        r.wf(),
        forall|k: u32| #[trigger] r.spec_get(k) == locator(pe, k),
{
    let mut cols: RvaMap<CompleteObjectLocator> = RvaMap::new();
    proof {
        assert forall|k: u32| #![trigger cols.spec_get(k)] cols.spec_get(k) is None by {
            cols.lemma_rva_domain(k);
        }
    }
    let (rdata, va) = match (pe.section_data(".rdata"), pe.section_by_name(".rdata")) {
        (Some(d), Some(s)) => (d, s.virtual_address),
        _ => {
            return cols;
        },
    };
    assert(section_at(pe, ".rdata"@) == Some((rdata@, va)));
    let mut pos: usize = 0;
    while rdata.len() >= 24 && pos <= rdata.len() - 24
        invariant
            pos <= rdata.len(),
            pos % 4 == 0,
            section_at(pe, ".rdata"@) == Some((rdata@, va)),
            descriptor_keys(pe, tds),
            cols.wf(),
            forall|k: u32| #[trigger] cols.spec_get(k) == locator_below(pe, va, k, pos as int),
        decreases rdata.len() - pos,
    {
        match locator_here(pe, tds, rdata, va, pos) {
            Some(col) => {
                let ghost before = cols;
                cols.insert(col.rva, col);
                assert forall|k: u32| #[trigger] cols.spec_get(k) == locator_below(pe, va, k, pos + 4) by {
                    lemma_locator_rva(pe, rdata@, va, pos as int);
                    if k != col.rva {
                        assert(cols.spec_get(k) == before.spec_get(k));
                        if k - va >= pos && k - va < pos + 4 {
                            lemma_no_locator(pe, rdata@, va, k - va);
                        }
                    }
                }
            },
            None => {
                assert forall|k: u32| #[trigger] cols.spec_get(k) == locator_below(pe, va, k, pos + 4) by {
                    if k - va > pos && k - va < pos + 4 {
                        lemma_no_locator(pe, rdata@, va, k - va);
                    }
                }
            },
        }
        pos = pos + 4;
    }
    assert forall|k: u32| #[trigger] cols.spec_get(k) == locator(pe, k) by {
        if k - va >= pos || k - va < 0 {
            lemma_no_locator(pe, rdata@, va, k - va);
        }
    }
    cols
}

// ---------------------------------------------------------------------------
// Building the engine: vtables
// ---------------------------------------------------------------------------

/// The descriptor table entry at `k`, with what the table promises of it.
fn descriptor_of<'t>(pe: &PeImage, tds: &'t RvaMap<TypeDescriptor>, k: u32) -> (r: Option<&'t TypeDescriptor>)
    requires
        descriptors_hold(pe, tds, descriptor_sections(), ""@, 0),
    ensures
        r matches Some(td) ==> has_descriptor(pe, k) && td.mangled_name@ == descriptor_mangled(pe, k)
            && td.demangled_name@ == descriptor_name(pe, k),
        r is None ==> !has_descriptor(pe, k),
{
    proof {
        assert(!descriptor_before(pe, ""@, k, 0));
    }
    tds.get(k)
}

/// The vtable whose locator pointer sits at position `pos` of `.rdata`: an
/// 8-aligned pointer into the image to a known complete object locator. The
/// vtable begins just after the pointer; the value gives its RVA and the RVA
/// of its type descriptor.
#[verifier::opaque]
pub open spec fn vtable_at(pe: &PeImage, pos: int) -> Option<(u32, u32)> {
    match section_at(pe, ".rdata"@) {
        Some((d, va)) => if 0 <= pos && pos % 8 == 0 && pos + 8 <= d.len() && va + pos + 8 <= u32::MAX {
            match crate::decode::rva_of(le_u64(d, pos), pe.image_base) {
                Some(t) => match locator(pe, t) {
                    Some(c) => Some(((va + pos + 8) as u32, c.p_type_descriptor)),
                    None => None,
                },
                None => None,
            }
        } else {
            None
        },
        None => None,
    }
}

proof fn lemma_vtable_at(pe: &PeImage, d: Seq<u8>, va: u32, q: int)
    requires
        section_at(pe, ".rdata"@) == Some((d, va)),
    ensures
        (q < 0 || q % 8 != 0 || q + 8 > d.len()) ==> vtable_at(pe, q) is None,
        vtable_at(pe, q) matches Some(x) ==> x.0 == va + q + 8 && has_descriptor(pe, x.1),
{
    reveal(vtable_at);
    reveal(locator_at);
}

/// The type descriptor of the vtable at RVA `v`.
pub open spec fn vtable_descriptor(pe: &PeImage, v: u32) -> Option<u32> {
    match section_at(pe, ".rdata"@) {
        Some((d, va)) => match vtable_at(pe, v - 8 - va) {
            Some(x) => Some(x.1),
            None => None,
        },
        None => None,
    }
}

/// The type of the vtable at RVA `v`.
pub open spec fn vtable_type(pe: &PeImage, v: u32) -> Option<Seq<char>> {
    match vtable_descriptor(pe, v) {
        Some(k) => Some(descriptor_name(pe, k)),
        None => None,
    }
}

/// The value type registered by the vtable at `v`, when its type is a
/// serializable member.
pub open spec fn vtable_smember(pe: &PeImage, v: u32) -> Option<Seq<char>> {
    match vtable_descriptor(pe, v) {
        Some(k) => smember_type(descriptor_name(pe, k), descriptor_mangled(pe, k)),
        None => None,
    }
}

/// The owner of the member registered by the vtable at `v`, when known.
pub open spec fn vtable_smember_owner(pe: &PeImage, v: u32) -> Option<Seq<char>> {
    match vtable_descriptor(pe, v) {
        Some(k) => match smember_metadata(descriptor_name(pe, k), descriptor_mangled(pe, k)) {
            Some((_, o)) => o,
            None => None,
        },
        None => None,
    }
}

/// The text of an optional string.
pub open spec fn text_of(o: Option<String>) -> Option<Seq<char>> {
    match o {
        Some(s) => Some(s@),
        None => None,
    }
}

/// The vtable at `v` lies before position `bound` of `.rdata`.
pub open spec fn vtable_below(pe: &PeImage, va: u32, v: u32, bound: int) -> bool {
    v - 8 - va < bound
}

/// `entry` is the first vtable of type `n` among those before `bound`, or
/// there is none.
pub open spec fn first_vtable_below(pe: &PeImage, va: u32, n: Seq<char>, entry: Option<u32>, bound: int) -> bool {
    match entry {
        Some(v) => vtable_below(pe, va, v, bound) && vtable_type(pe, v) == Some(n) && forall|w: u32|
            #![trigger vtable_type(pe, w)] w < v ==> vtable_type(pe, w) != Some(n),
        None => forall|w: u32| #![trigger vtable_type(pe, w)] vtable_below(pe, va, w, bound) ==> vtable_type(pe, w) != Some(n),
    }
}

/// The vtable maps hold what the vtables before `bound` say.
pub open spec fn vtables_hold(
    pe: &PeImage,
    va: u32,
    vt: &RvaMap<String>,
    tv: &NameMap<u32>,
    sm: &RvaMap<String>,
    so: &RvaMap<String>,
    bound: int,
) -> bool {
    &&& vt.wf() && tv.wf() && sm.wf() && so.wf()
    &&& forall|v: u32| #[trigger] text_of(vt.spec_get(v)) == (if vtable_below(pe, va, v, bound) { vtable_type(pe, v) } else { None })
    &&& forall|v: u32| #[trigger] text_of(sm.spec_get(v)) == (if vtable_below(pe, va, v, bound) { vtable_smember(pe, v) } else { None })
    &&& forall|v: u32| #[trigger] text_of(so.spec_get(v)) == (if vtable_below(pe, va, v, bound) { vtable_smember_owner(pe, v) } else { None })
    &&& forall|n: Seq<char>| #[trigger] first_vtable_below(pe, va, n, tv.spec_get(n), bound)
}

/// The vtable whose locator pointer is at `pos` (see [`vtable_at`]).
fn vtable_here(pe: &PeImage, cols: &RvaMap<CompleteObjectLocator>, rdata: &[u8], va: u32, pos: usize) -> (r: Option<(u32, u32)>)
    requires
        section_at(pe, ".rdata"@) == Some((rdata@, va)),
        pos % 8 == 0,
        pos + 8 <= rdata@.len(),
        cols.wf(),
        forall|k: u32| #[trigger] cols.spec_get(k) == locator(pe, k),
    ensures
        r == vtable_at(pe, pos as int),
{
    reveal(vtable_at);
    if (va as u64) + (pos as u64) + 8 > 4294967295u64 {
        return None;
    }
    let ptr = read_u64_le(rdata, pos);
    match crate::decode::target_rva(ptr, pe.image_base) {
        Some(t) => match cols.get(t) {
            Some(c) => Some((va + (pos as u32) + 8, c.p_type_descriptor)),
            None => None,
        },
        None => None,
    }
}

proof fn lemma_vtable_gap(pe: &PeImage, d: Seq<u8>, va: u32, w: u32, pos: int)
    requires
        section_at(pe, ".rdata"@) == Some((d, va)),
        w - 8 - va != pos,
        pos % 8 == 0,
        pos <= w - 8 - va < pos + 8 || w - 8 - va >= d.len() || w - 8 - va < 0 || (w - 8 - va) + 8 > d.len(),
    ensures
        vtable_descriptor(pe, w) is None,
        vtable_type(pe, w) is None,
        vtable_smember(pe, w) is None,
        vtable_smember_owner(pe, w) is None,
{
    lemma_vtable_at(pe, d, va, w - 8 - va);
}

proof fn lemma_vtables_skip(
    pe: &PeImage,
    d: Seq<u8>,
    va: u32,
    vt: &RvaMap<String>,
    tv: &NameMap<u32>,
    sm: &RvaMap<String>,
    so: &RvaMap<String>,
    p: int,
)
    requires
        section_at(pe, ".rdata"@) == Some((d, va)),
        p % 8 == 0,
        vtable_at(pe, p) is None,
        vtables_hold(pe, va, vt, tv, sm, so, p),
    ensures
        vtables_hold(pe, va, vt, tv, sm, so, p + 8),
{
    assert forall|w: u32| vtable_below(pe, va, w, p + 8) && !vtable_below(pe, va, w, p) implies vtable_descriptor(pe, w) is None by {
        if w - 8 - va != p {
            lemma_vtable_gap(pe, d, va, w, p);
        }
    }
    assert forall|n: Seq<char>| #[trigger] first_vtable_below(pe, va, n, tv.spec_get(n), p + 8) by {
        assert(first_vtable_below(pe, va, n, tv.spec_get(n), p));
    }
}

/// Records the vtable `v` of the descriptor at `k`, found at position `pos`.
#[verifier::rlimit(40)]
fn record_vtable(
    pe: &PeImage,
    tds: &RvaMap<TypeDescriptor>,
    rdata: &[u8],
    va: u32,
    vt: &mut RvaMap<String>,
    tv: &mut NameMap<u32>,
    sm: &mut RvaMap<String>,
    so: &mut RvaMap<String>,
    v: u32,
    k: u32,
    pos: usize,
)
    requires
        section_at(pe, ".rdata"@) == Some((rdata@, va)),
        descriptors_hold(pe, tds, descriptor_sections(), ""@, 0),
        pos % 8 == 0,
        vtable_at(pe, pos as int) == Some((v, k)),
        vtables_hold(pe, va, old(vt), old(tv), old(sm), old(so), pos as int),
    ensures
        vtables_hold(pe, va, final(vt), final(tv), final(sm), final(so), pos + 8),
{
    let ghost p = pos as int;
    let ghost vt0 = *vt;
    let ghost tv0 = *tv;
    let ghost sm0 = *sm;
    let ghost so0 = *so;
    proof {
        lemma_vtable_at(pe, rdata@, va, p);
    }
    assert(vtable_descriptor(pe, v) == Some(k));
    let td = match descriptor_of(pe, tds, k) {
        Some(td) => td,
        None => {
            assert(false);
            return;
        },
    };
    let name = td.demangled_name.clone();
    vt.insert(v, name.clone());
    let fresh = !tv.contains_key(name.as_str());
    proof {
        tv.lemma_domain(name@);
    }
    if fresh {
        tv.set(name.clone(), v);
    }
    match extract_smember_metadata(td.demangled_name.as_str(), td.mangled_name.as_str()) {
        Some(meta) => {
            sm.insert(v, meta.value_type);
            match meta.owner_type {
                Some(o) => {
                    so.insert(v, o);
                },
                None => {},
            }
        },
        None => {},
    }
    proof {
        assert forall|w: u32| vtable_below(pe, va, w, p + 8) && !vtable_below(pe, va, w, p) && w != v implies vtable_descriptor(pe, w) is None by {
            lemma_vtable_gap(pe, rdata@, va, w, p);
        }
        assert forall|w: u32| #[trigger] text_of(vt.spec_get(w)) == (if vtable_below(pe, va, w, p + 8) { vtable_type(pe, w) } else { None }) by {
            if w != v {
                assert(vt.spec_get(w) == vt0.spec_get(w));
            }
        }
        assert forall|w: u32| #[trigger] text_of(sm.spec_get(w)) == (if vtable_below(pe, va, w, p + 8) { vtable_smember(pe, w) } else { None }) by {
            if w != v {
                assert(sm.spec_get(w) == sm0.spec_get(w));
            }
        }
        assert forall|w: u32| #[trigger] text_of(so.spec_get(w)) == (if vtable_below(pe, va, w, p + 8) { vtable_smember_owner(pe, w) } else { None }) by {
            if w != v {
                assert(so.spec_get(w) == so0.spec_get(w));
            }
        }
        assert forall|n: Seq<char>| #[trigger] first_vtable_below(pe, va, n, tv.spec_get(n), p + 8) by {
            assert(first_vtable_below(pe, va, n, tv0.spec_get(n), p));
            if n != name@ {
                assert(tv.spec_get(n) == tv0.spec_get(n));
            }
        }
    }
}

/// The vtables of `.rdata`: the type of each, the first vtable of each type,
/// and for serializable-member registrations the value type and owner.
fn scan_vtables(pe: &PeImage, tds: &RvaMap<TypeDescriptor>, cols: &RvaMap<CompleteObjectLocator>) -> (r: (
    RvaMap<String>,
    NameMap<u32>,
    RvaMap<String>,
    RvaMap<String>,
))
    requires
        descriptors_hold(pe, tds, descriptor_sections(), ""@, 0),
        cols.wf(),
        forall|k: u32| #[trigger] cols.spec_get(k) == locator(pe, k),
    ensures
        r.0.wf() && r.1.wf() && r.2.wf() && r.3.wf(),
        forall|v: u32| #[trigger] text_of(r.0.spec_get(v)) == vtable_type(pe, v),
        forall|v: u32| #[trigger] text_of(r.2.spec_get(v)) == vtable_smember(pe, v),
        forall|v: u32| #[trigger] text_of(r.3.spec_get(v)) == vtable_smember_owner(pe, v),
        forall|n: Seq<char>| #[trigger] r.1.spec_get(n) matches Some(v) ==> vtable_type(pe, v) == Some(n)
            && forall|w: u32| #![trigger vtable_type(pe, w)] w < v ==> vtable_type(pe, w) != Some(n),
        forall|n: Seq<char>| #[trigger] r.1.spec_get(n) is None ==> forall|w: u32|
            #![trigger vtable_type(pe, w)] vtable_type(pe, w) != Some(n),
{
    let mut vt: RvaMap<String> = RvaMap::new();
    let mut tv: NameMap<u32> = NameMap::new();
    let mut sm: RvaMap<String> = RvaMap::new();
    let mut so: RvaMap<String> = RvaMap::new();
    proof {
        assert forall|v: u32| vt.spec_get(v) is None && sm.spec_get(v) is None && so.spec_get(v) is None by {
            vt.lemma_rva_domain(v);
            sm.lemma_rva_domain(v);
            so.lemma_rva_domain(v);
        }
        assert forall|n: Seq<char>| tv.spec_get(n) is None by {
            tv.lemma_get_absent(n);
        }
    }
    let (rdata, va) = match (pe.section_data(".rdata"), pe.section_by_name(".rdata")) {
        (Some(d), Some(s)) => (d, s.virtual_address),
        _ => {
            return (vt, tv, sm, so);
        },
    };
    assert(section_at(pe, ".rdata"@) == Some((rdata@, va)));
    let mut pos: usize = 0;
    proof {
        assert forall|n: Seq<char>| #[trigger] first_vtable_below(pe, va, n, tv.spec_get(n), pos as int) by {
            assert forall|w: u32| #![trigger vtable_type(pe, w)] vtable_below(pe, va, w, 0) implies vtable_type(pe, w) != Some(n) by {
                lemma_vtable_gap(pe, rdata@, va, w, 0);
            }
        }
        assert forall|v: u32| #[trigger] text_of(vt.spec_get(v)) == (if vtable_below(pe, va, v, 0) { vtable_type(pe, v) } else { None })
            && text_of(sm.spec_get(v)) == (if vtable_below(pe, va, v, 0) { vtable_smember(pe, v) } else { None })
            && text_of(so.spec_get(v)) == (if vtable_below(pe, va, v, 0) { vtable_smember_owner(pe, v) } else { None }) by {
            if vtable_below(pe, va, v, 0) {
                lemma_vtable_gap(pe, rdata@, va, v, 0);
            }
        }
    }
    while rdata.len() >= 8 && pos <= rdata.len() - 8
        invariant
            pos <= rdata.len(),
            pos % 8 == 0,
            section_at(pe, ".rdata"@) == Some((rdata@, va)),
            descriptors_hold(pe, tds, descriptor_sections(), ""@, 0),
            cols.wf(),
            forall|k: u32| #[trigger] cols.spec_get(k) == locator(pe, k),
            vtables_hold(pe, va, &vt, &tv, &sm, &so, pos as int),
        decreases rdata.len() - pos,
    {
        match vtable_here(pe, cols, rdata, va, pos) {
            Some((v, k)) => {
                record_vtable(pe, tds, rdata, va, &mut vt, &mut tv, &mut sm, &mut so, v, k, pos);
            },
            None => {
                proof {
                    lemma_vtables_skip(pe, rdata@, va, &vt, &tv, &sm, &so, pos as int);
                }
            },
        }
        pos = pos + 8;
    }
    proof {
        assert forall|w: u32| !vtable_below(pe, va, w, pos as int) implies vtable_descriptor(pe, w) is None by {
            lemma_vtable_at(pe, rdata@, va, w - 8 - va);
        }
        assert forall|n: Seq<char>| #[trigger] tv.spec_get(n) matches Some(v) ==> vtable_type(pe, v) == Some(n)
            && forall|w: u32| #![trigger vtable_type(pe, w)] w < v ==> vtable_type(pe, w) != Some(n) by {
            assert(first_vtable_below(pe, va, n, tv.spec_get(n), pos as int));
        }
        assert forall|n: Seq<char>| #[trigger] tv.spec_get(n) is None implies forall|w: u32|
            #![trigger vtable_type(pe, w)] vtable_type(pe, w) != Some(n) by {
            assert(first_vtable_below(pe, va, n, tv.spec_get(n), pos as int));
        }
    }
    (vt, tv, sm, so)
}

// ---------------------------------------------------------------------------
// Building the engine: the class hierarchy
// ---------------------------------------------------------------------------

/// The number of base-class entries the class hierarchy descriptor of `c`
/// lists, when the descriptor and its array can be read (between 2 and 99),
/// else 0.
pub open spec fn base_count(pe: &PeImage, c: CompleteObjectLocator) -> int {
    if c.p_class_descriptor == 0 {
        0
    } else {
        match bytes_at(pe.raw@, pe.sections_spec(), c.p_class_descriptor, 16) {
            Some(chd) => {
                let num = le_u32(chd, 8);
                let arr = le_u32(chd, 12);
                if arr != 0 && 1 < num < 100 && bytes_at(pe.raw@, pe.sections_spec(), arr, num * 4) is Some {
                    num as int
                } else {
                    0
                }
            },
            None => 0,
        }
    }
}

/// The base class that entry `i` of the base-class array of `c`'s class
/// hierarchy descriptor names, when it is a known type other than `c`'s own.
pub open spec fn base_link(pe: &PeImage, c: CompleteObjectLocator, i: int) -> Option<Seq<char>> {
    if 0 <= i < base_count(pe, c) {
        let chd = bytes_at(pe.raw@, pe.sections_spec(), c.p_class_descriptor, 16)->0;
        let num = le_u32(chd, 8);
        let arr = le_u32(chd, 12);
        let bca = bytes_at(pe.raw@, pe.sections_spec(), arr, num * 4)->0;
        match bytes_at(pe.raw@, pe.sections_spec(), le_u32(bca, 4 * i), 4) {
            Some(bcd) => {
                let b = le_u32(bcd, 0);
                if has_descriptor(pe, b) && descriptor_name(pe, b) != descriptor_name(pe, c.p_type_descriptor) {
                    Some(descriptor_name(pe, b))
                } else {
                    None
                }
            },
            None => None,
        }
    } else {
        None
    }
}

/// RTTI records class `d` as derived from class `b`: some complete object
/// locator of `d` lists `b` among its base classes.
pub open spec fn derives(pe: &PeImage, b: Seq<char>, d: Seq<char>) -> bool {
    exists|k: u32, i: int|
        #![trigger locator(pe, k), base_link(pe, locator(pe, k)->0, i)]
        locator(pe, k) is Some && base_link(pe, locator(pe, k)->0, i) == Some(b) && descriptor_name(
            pe,
            locator(pe, k)->0.p_type_descriptor,
        ) == d
}

/// Like [`derives`], over the locators `keys[..j]` and the first `ii`
/// entries of the locator `keys[j]`.
pub open spec fn derives_before(pe: &PeImage, keys: Seq<u32>, j: int, ii: int, b: Seq<char>, d: Seq<char>) -> bool {
    exists|jj: int, i: int|
        #![trigger keys[jj], base_link(pe, locator(pe, keys[jj])->0, i)]
        0 <= jj < keys.len() && (jj < j || (jj == j && i < ii)) && locator(pe, keys[jj]) is Some && base_link(
            pe,
            locator(pe, keys[jj])->0,
            i,
        ) == Some(b) && descriptor_name(pe, locator(pe, keys[jj])->0.p_type_descriptor) == d
}

/// The names of `s` are distinct.
pub open spec fn distinct_names(s: Seq<Seq<char>>) -> bool {
    forall|x: int, y: int| 0 <= x < y < s.len() ==> s[x] != s[y]
}

/// The hierarchy lists, for each base, exactly the classes `derives_before`
/// relates to it, each once.
pub open spec fn hierarchy_upto(pe: &PeImage, es: Seq<(Seq<char>, Seq<Seq<char>>)>, keys: Seq<u32>, j: int, ii: int) -> bool {
    &&& distinct_bases(es)
    &&& forall|b: Seq<char>| #[trigger] derived_in(es, b) matches Some(l) ==> distinct_names(l) && forall|d: Seq<char>|
        #![trigger l.contains(d)] l.contains(d) <==> derives_before(pe, keys, j, ii, b, d)
    &&& forall|b: Seq<char>, d: Seq<char>| #[trigger] derives_before(pe, keys, j, ii, b, d) ==> derived_in(es, b) is Some
}

/// The base-class entry `i` of `c` (see [`base_link`]).
fn base_link_exec(pe: &PeImage, tds: &RvaMap<TypeDescriptor>, c: &CompleteObjectLocator, i: u32, derived: &String) -> (r: Option<String>)
    requires
        descriptors_hold(pe, tds, descriptor_sections(), ""@, 0),
        derived@ == descriptor_name(pe, c.p_type_descriptor),
    ensures
        text_of(r) == base_link(pe, *c, i as int),
{
    if c.p_class_descriptor == 0 {
        return None;
    }
    let chd = match pe.slice_at_rva(c.p_class_descriptor, 16) {
        Some(b) => b,
        None => {
            return None;
        },
    };
    proof {
        crate::pe::lemma_bytes_at_len(pe.raw@, pe.sections_spec(), c.p_class_descriptor, 16);
    }
    let num = read_u32_le(chd, 8);
    let arr = read_u32_le(chd, 12);
    if !(arr != 0 && 1 < num && num < 100) || i >= num {
        return None;
    }
    let bca = match pe.slice_at_rva(arr, (num as usize) * 4) {
        Some(b) => b,
        None => {
            return None;
        },
    };
    proof {
        crate::pe::lemma_bytes_at_len(pe.raw@, pe.sections_spec(), arr, num * 4);
    }
    let bcd_rva = read_u32_le(bca, (i as usize) * 4);
    let bcd = match pe.slice_at_rva(bcd_rva, 4) {
        Some(b) => b,
        None => {
            return None;
        },
    };
    proof {
        crate::pe::lemma_bytes_at_len(pe.raw@, pe.sections_spec(), bcd_rva, 4);
    }
    let b = read_u32_le(bcd, 0);
    match descriptor_of(pe, tds, b) {
        Some(td) => if !str_eq(td.demangled_name.as_str(), derived.as_str()) {
            Some(td.demangled_name.clone())
        } else {
            None
        },
        None => None,
    }
}

/// The number of base-class entries of `c` (see [`base_count`]).
fn base_count_exec(pe: &PeImage, c: &CompleteObjectLocator) -> (r: u32)
    ensures
        r == base_count(pe, *c),
{
    if c.p_class_descriptor == 0 {
        return 0;
    }
    let chd = match pe.slice_at_rva(c.p_class_descriptor, 16) {
        Some(b) => b,
        None => {
            return 0;
        },
    };
    proof {
        crate::pe::lemma_bytes_at_len(pe.raw@, pe.sections_spec(), c.p_class_descriptor, 16);
    }
    let num = read_u32_le(chd, 8);
    let arr = read_u32_le(chd, 12);
    if !(arr != 0 && 1 < num && num < 100) {
        return 0;
    }
    match pe.slice_at_rva(arr, (num as usize) * 4) {
        Some(_) => num,
        None => 0,
    }
}

proof fn lemma_upto_equiv(pe: &PeImage, es: Seq<(Seq<char>, Seq<Seq<char>>)>, keys: Seq<u32>, j1: int, i1: int, j2: int, i2: int)
    requires
        hierarchy_upto(pe, es, keys, j1, i1),
        forall|b: Seq<char>, d: Seq<char>| derives_before(pe, keys, j2, i2, b, d) == derives_before(pe, keys, j1, i1, b, d),
    ensures
        hierarchy_upto(pe, es, keys, j2, i2),
{
    assert forall|b: Seq<char>| #[trigger] derived_in(es, b) matches Some(l) ==> distinct_names(l) && forall|d: Seq<char>|
        #![trigger l.contains(d)] l.contains(d) <==> derives_before(pe, keys, j2, i2, b, d) by {
        if derived_in(es, b) is Some {
            let l = derived_in(es, b)->0;
            assert forall|d: Seq<char>| #![trigger l.contains(d)] l.contains(d) <==> derives_before(pe, keys, j2, i2, b, d) by {
                assert(derives_before(pe, keys, j2, i2, b, d) == derives_before(pe, keys, j1, i1, b, d));
            }
        }
    }
    assert forall|b: Seq<char>, d: Seq<char>| #[trigger] derives_before(pe, keys, j2, i2, b, d) implies derived_in(es, b) is Some by {
        assert(derives_before(pe, keys, j2, i2, b, d) == derives_before(pe, keys, j1, i1, b, d));
    }
}

/// Records entry `i` of the base classes of locator `keys[jj0]`.
#[verifier::rlimit(40)]
fn record_base(
    pe: &PeImage,
    tds: &RvaMap<TypeDescriptor>,
    Ghost(keys): Ghost<Seq<u32>>,
    Ghost(jj0): Ghost<int>,
    h: &mut ClassHierarchy,
    c: &CompleteObjectLocator,
    i: u32,
    derived: &String,
)
    requires
        0 <= jj0 < keys.len(),
        locator(pe, keys[jj0]) == Some(*c),
        derived@ == descriptor_name(pe, c.p_type_descriptor),
        descriptors_hold(pe, tds, descriptor_sections(), ""@, 0),
        hierarchy_upto(pe, old(h).entries(), keys, jj0, i as int),
    ensures
        hierarchy_upto(pe, final(h).entries(), keys, jj0, i + 1),
{
    let ghost es0 = h.entries();
    let link = base_link_exec(pe, tds, c, i, derived);
    match link {
        Some(base) => {
            if !h.is_base_of(base.as_str(), derived.as_str()) {
                h.add_derived(base.as_str(), derived.as_str());
            }
            proof {
                let es = h.entries();
                assert(base_link(pe, locator(pe, keys[jj0])->0, i as int) == Some(base@));
                assert(derives_before(pe, keys, jj0, i + 1, base@, derived@));
                assert forall|b: Seq<char>, d: Seq<char>| derives_before(pe, keys, jj0, i + 1, b, d) == (derives_before(pe, keys, jj0, i as int, b, d) || (b == base@ && d == derived@)) by {
                    if derives_before(pe, keys, jj0, i + 1, b, d) && !(b == base@ && d == derived@) {
                        let (jj, ii) = choose|jj: int, ii: int| 0 <= jj < keys.len() && (jj < jj0 || (jj == jj0 && ii < i + 1)) && locator(pe, keys[jj]) is Some && base_link(pe, locator(pe, keys[jj])->0, ii) == Some(b) && descriptor_name(pe, locator(pe, keys[jj])->0.p_type_descriptor) == d;
                        if jj == jj0 && ii == i {
                            assert(false);
                        }
                    }
                }
                assert forall|b: Seq<char>| #[trigger] derived_in(es, b) matches Some(l) ==> distinct_names(l) && forall|d: Seq<char>|
                    #![trigger l.contains(d)] l.contains(d) <==> derives_before(pe, keys, jj0, i + 1, b, d) by {
                    if b != base@ {
                        assert(derived_in(es, b) == derived_in(es0, b));
                        if derived_in(es0, b) is Some {
                            let l = derived_in(es0, b)->0;
                            assert forall|d: Seq<char>| #![trigger l.contains(d)] l.contains(d) <==> derives_before(pe, keys, jj0, i + 1, b, d) by {
                                assert(derives_before(pe, keys, jj0, i + 1, b, d) == (derives_before(pe, keys, jj0, i as int, b, d) || (b == base@ && d == derived@)));
                            }
                        }
                    } else if derived_in(es0, b) is Some && derived_in(es0, b)->0.contains(derived@) {
                        let l = derived_in(es0, b)->0;
                        assert(derived_in(es, b) == Some(l));
                        assert forall|d: Seq<char>| #![trigger l.contains(d)] l.contains(d) <==> derives_before(pe, keys, jj0, i + 1, b, d) by {
                            assert(derives_before(pe, keys, jj0, i + 1, b, d) == (derives_before(pe, keys, jj0, i as int, b, d) || (b == base@ && d == derived@)));
                        }
                    } else if derived_in(es0, b) is Some {
                        let l0 = derived_in(es0, b)->0;
                        let l = l0.push(derived@);
                        assert(derived_in(es, b) == Some(l));
                        assert forall|x: int, y: int| 0 <= x < y < l.len() implies l[x] != l[y] by {
                            if y == l.len() - 1 {
                                assert(l0[x] == l[x]);
                            } else {
                                assert(l0[x] == l[x] && l0[y] == l[y]);
                            }
                        }
                        assert forall|d: Seq<char>| #![trigger l.contains(d)] l.contains(d) <==> derives_before(pe, keys, jj0, i + 1, b, d) by {
                            assert(derives_before(pe, keys, jj0, i + 1, b, d) == (derives_before(pe, keys, jj0, i as int, b, d) || (b == base@ && d == derived@)));
                            assert(l0.contains(d) <==> derives_before(pe, keys, jj0, i as int, b, d));
                            if l.contains(d) && d != derived@ {
                                let x = choose|x: int| 0 <= x < l.len() && l[x] == d;
                                assert(l0[x] == d);
                            }
                            if d == derived@ {
                                assert(l[l.len() - 1] == d);
                            }
                            if l0.contains(d) {
                                let x = choose|x: int| 0 <= x < l0.len() && l0[x] == d;
                                assert(l[x] == d);
                            }
                        }
                    } else {
                        let l = seq![derived@];
                        assert(derived_in(es, b) == Some(l));
                        assert forall|d: Seq<char>| #![trigger l.contains(d)] l.contains(d) <==> derives_before(pe, keys, jj0, i + 1, b, d) by {
                            assert(derives_before(pe, keys, jj0, i + 1, b, d) == (derives_before(pe, keys, jj0, i as int, b, d) || (b == base@ && d == derived@)));
                            if derives_before(pe, keys, jj0, i as int, b, d) {
                                assert(derived_in(es0, b) is Some);
                            }
                            if d == derived@ {
                                assert(l[0] == d);
                            }
                        }
                    }
                }
                assert(derived_in(es, base@) is Some);
                assert forall|b: Seq<char>, d: Seq<char>| #[trigger] derives_before(pe, keys, jj0, i + 1, b, d) implies derived_in(es, b) is Some by {
                    if b != base@ {
                        assert(derived_in(es, b) == derived_in(es0, b));
                        assert(derives_before(pe, keys, jj0, i + 1, b, d) == (derives_before(pe, keys, jj0, i as int, b, d) || (b == base@ && d == derived@)));
                        assert(derives_before(pe, keys, jj0, i as int, b, d));
                    }
                }
                assert(hierarchy_upto(pe, es, keys, jj0, i + 1));
            }
        },
        None => {
            proof {
                assert forall|b: Seq<char>, d: Seq<char>| derives_before(pe, keys, jj0, i + 1, b, d) == derives_before(pe, keys, jj0, i as int, b, d) by {
                    if derives_before(pe, keys, jj0, i + 1, b, d) {
                        let (jj, ii) = choose|jj: int, ii: int| 0 <= jj < keys.len() && (jj < jj0 || (jj == jj0 && ii < i + 1)) && locator(pe, keys[jj]) is Some && base_link(pe, locator(pe, keys[jj])->0, ii) == Some(b) && descriptor_name(pe, locator(pe, keys[jj])->0.p_type_descriptor) == d;
                        if jj == jj0 && ii == i {
                            assert(false);
                        }
                    }
                }
                lemma_upto_equiv(pe, h.entries(), keys, jj0, i as int, jj0, i + 1);
            }
        },
    }
}

/// The class hierarchy the locators' class hierarchy descriptors record.
#[verifier::rlimit(40)]
fn build_hierarchy(pe: &PeImage, tds: &RvaMap<TypeDescriptor>, cols: &RvaMap<CompleteObjectLocator>) -> (r: ClassHierarchy)
    requires
        descriptors_hold(pe, tds, descriptor_sections(), ""@, 0),
        cols.wf(),
        forall|k: u32| #[trigger] cols.spec_get(k) == locator(pe, k),
    ensures
        forall|b: Seq<char>| #[trigger] derived_in(r.entries(), b) matches Some(l) ==> distinct_names(l) && forall|d: Seq<char>|
            #![trigger l.contains(d)] l.contains(d) <==> derives(pe, b, d),
        forall|b: Seq<char>, d: Seq<char>| #[trigger] derives(pe, b, d) ==> derived_in(r.entries(), b) is Some,
        distinct_bases(r.entries()),
{
    let mut h = ClassHierarchy::new();
    let ghost keys = cols.keys();
    let n = cols.len();
    let mut j: usize = 0;
    assert(hierarchy_upto(pe, h.entries(), keys, 0, 0));
    while j < n
        invariant
            j <= n,
            n == keys.len(),
            keys == cols.keys(),
            descriptors_hold(pe, tds, descriptor_sections(), ""@, 0),
            cols.wf(),
            forall|k: u32| #[trigger] cols.spec_get(k) == locator(pe, k),
            hierarchy_upto(pe, h.entries(), keys, j as int, 0),
        decreases n - j,
    {
        let c = cols.value_at(j);
        proof {
            cols.lemma_rva_get_at(j as int);
            let (d, va) = section_at(pe, ".rdata"@)->0;
            if section_at(pe, ".rdata"@) is Some {
                lemma_locator_rva(pe, d, va, keys[j as int] - va);
            }
        }
        assert(locator(pe, keys[j as int]) == Some(*c));
        let derived = match descriptor_of(pe, tds, c.p_type_descriptor) {
            Some(td) => td.demangled_name.clone(),
            None => {
                assert(false);
                return h;
            },
        };
        let count = base_count_exec(pe, c);
        let mut i: u32 = 0;
        while i < count
            invariant
                i <= count,
                count == base_count(pe, *c),
                j < n,
                n == keys.len(),
                locator(pe, keys[j as int]) == Some(*c),
                derived@ == descriptor_name(pe, c.p_type_descriptor),
                descriptors_hold(pe, tds, descriptor_sections(), ""@, 0),
                hierarchy_upto(pe, h.entries(), keys, j as int, i as int),
            decreases count - i,
        {
            record_base(pe, tds, Ghost(keys), Ghost(j as int), &mut h, c, i, &derived);
            i = i + 1;
        }
        proof {
            assert forall|b: Seq<char>, d: Seq<char>| derives_before(pe, keys, j + 1, 0, b, d) == derives_before(pe, keys, j as int, count as int, b, d) by {
                if derives_before(pe, keys, j as int, count as int, b, d) {
                    let (jj, ii) = choose|jj: int, ii: int| 0 <= jj < keys.len() && (jj < j || (jj == j && ii < count)) && locator(pe, keys[jj]) is Some && base_link(pe, locator(pe, keys[jj])->0, ii) == Some(b) && descriptor_name(pe, locator(pe, keys[jj])->0.p_type_descriptor) == d;
                    assert(derives_before(pe, keys, j + 1, 0, b, d));
                }
                if derives_before(pe, keys, j + 1, 0, b, d) {
                    let (jj, ii) = choose|jj: int, ii: int| 0 <= jj < keys.len() && (jj < j + 1 || (jj == j + 1 && ii < 0)) && locator(pe, keys[jj]) is Some && base_link(pe, locator(pe, keys[jj])->0, ii) == Some(b) && descriptor_name(pe, locator(pe, keys[jj])->0.p_type_descriptor) == d;
                    if jj == j {
                        assert(0 <= ii < count);
                    }
                    assert(derives_before(pe, keys, j as int, count as int, b, d));
                }
            }
            lemma_upto_equiv(pe, h.entries(), keys, j as int, count as int, j + 1, 0);
        }
        j = j + 1;
    }
    proof {
        assert forall|b: Seq<char>, d: Seq<char>| derives_before(pe, keys, n as int, 0, b, d) == derives(pe, b, d) by {
            if derives(pe, b, d) {
                let (k, i) = choose|k: u32, i: int| locator(pe, k) is Some && base_link(pe, locator(pe, k)->0, i) == Some(b) && descriptor_name(pe, locator(pe, k)->0.p_type_descriptor) == d;
                cols.lemma_rva_domain(k);
                let jj = choose|jj: int| 0 <= jj < keys.len() && keys[jj] == k;
                assert(derives_before(pe, keys, n as int, 0, b, d));
            }
            if derives_before(pe, keys, n as int, 0, b, d) {
                let (jj, i) = choose|jj: int, i: int| 0 <= jj < keys.len() && (jj < n || (jj == n && i < 0)) && locator(pe, keys[jj]) is Some && base_link(pe, locator(pe, keys[jj])->0, i) == Some(b) && descriptor_name(pe, locator(pe, keys[jj])->0.p_type_descriptor) == d;
                let k = keys[jj];
                assert(locator(pe, k) is Some && base_link(pe, locator(pe, k)->0, i) == Some(b));
            }
        }
        lemma_upto_equiv(pe, h.entries(), keys, n as int, 0, n as int, 0);
    }
    h
}


impl RttiEngine {
    /// Reads the RTTI of an image: the type descriptors whose names lie in
    /// `.data` or `.rdata`, the complete object locators of `.rdata`, the
    /// vtables that follow pointers to them, and the base classes their
    /// class hierarchy descriptors list.
    pub fn build(pe: &PeImage) -> (r: RttiEngine)
        ensures
            r.wf(),
            descriptors_hold(pe, &r.type_descriptors, descriptor_sections(), ""@, 0),
            forall|v: u32| #[trigger] text_of(r.vtable_to_type.spec_get(v)) == vtable_type(pe, v),
            forall|v: u32| #[trigger] text_of(r.smember_vtables.spec_get(v)) == vtable_smember(pe, v),
            forall|v: u32| #[trigger] text_of(r.smember_owners.spec_get(v)) == vtable_smember_owner(pe, v),
            forall|n: Seq<char>| #[trigger] r.type_to_vtable.spec_get(n) matches Some(v) ==> vtable_type(pe, v) == Some(n)
                && forall|w: u32| #![trigger vtable_type(pe, w)] w < v ==> vtable_type(pe, w) != Some(n),
            forall|n: Seq<char>| #[trigger] r.type_to_vtable.spec_get(n) is None ==> forall|w: u32|
                #![trigger vtable_type(pe, w)] vtable_type(pe, w) != Some(n),
            forall|b: Seq<char>| #[trigger] derived_in(r.hierarchy.entries(), b) matches Some(l) ==> distinct_names(l)
                && forall|d: Seq<char>| #![trigger l.contains(d)] l.contains(d) <==> derives(pe, b, d),
            forall|b: Seq<char>, d: Seq<char>| #[trigger] derives(pe, b, d) ==> derived_in(r.hierarchy.entries(), b) is Some,
            distinct_bases(r.hierarchy.entries()),
    {
        let tds = scan_type_descriptors(pe);
        proof {
            assert forall|k: u32| #[trigger] tds.spec_get(k) is Some <==> has_descriptor(pe, k) by {
                assert(!descriptor_before(pe, ""@, k, 0));
            }
        }
        let cols = scan_locators(pe, &tds);
        let (vtable_to_type, type_to_vtable, smember_vtables, smember_owners) = scan_vtables(pe, &tds, &cols);
        let hierarchy = build_hierarchy(pe, &tds, &cols);
        RttiEngine { type_descriptors: tds, vtable_to_type, type_to_vtable, smember_vtables, smember_owners, hierarchy }
    }
}

} // verus!
