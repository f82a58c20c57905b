//! Normalisation and decomposition of demangled MSVC C++ type names.
use vstd::prelude::*;
use crate::text::{
    append, append_str, contains_seq, find_char, find_first, join, join_seqs,
    lemma_find_first_bounds, string_of, chars_of, find, eq_str, has_prefix, lemma_trim_len, opt_string_of, slice_of,
    starts_with, starts_with_str, strings_of, trim, trim_bounds, trimmed, is_trimmed, is_suffix_of, lemma_trim_shape,
    lemma_trim_suffix, is_ws, trim_start, trim_end, lemma_trim_piece, find_from, occurs_at,
};

verus! {

/// A type name taken apart into the container shape the schema reports.
#[derive(Debug, Clone, PartialEq, Eq)]
pub struct DecomposedType {
    pub full: String,
    pub name: Option<String>,
    pub optional: bool,
    pub array: bool,
    pub map: bool,
    pub map_key: Option<String>,
    pub map_value: Option<String>,
    pub polymorphic: bool,
    pub polymorphic_base: Option<String>,
}

/// The abstract value of a [`DecomposedType`].
pub struct TypeShape {
    pub full: Seq<char>,
    pub name: Option<Seq<char>>,
    pub optional: bool,
    pub array: bool,
    pub map: bool,
    pub map_key: Option<Seq<char>>,
    pub map_value: Option<Seq<char>>,
    pub polymorphic: bool,
    pub polymorphic_base: Option<Seq<char>>,
}

impl View for DecomposedType {
    type V = TypeShape;

    open spec fn view(&self) -> TypeShape {
        TypeShape {
            full: self.full@,
            name: self.name.deep_view(),
            optional: self.optional,
            array: self.array,
            map: self.map,
            map_key: self.map_key.deep_view(),
            map_value: self.map_value.deep_view(),
            polymorphic: self.polymorphic,
            polymorphic_base: self.polymorphic_base.deep_view(),
        }
    }
}

// ---------------------------------------------------------------------------
// Qualifier stripping
// ---------------------------------------------------------------------------

/// Length of the leading qualifier keyword of `t` ("class ", "struct ", "enum ",
/// "const ", "volatile ", tried in that order), or 0 when there is none.
pub open spec fn qualifier_len(t: Seq<char>) -> nat {
    if has_prefix(t, "class "@) {
        "class "@.len()
    } else if has_prefix(t, "struct "@) {
        "struct "@.len()
    } else if has_prefix(t, "enum "@) {
        "enum "@.len()
    } else if has_prefix(t, "const "@) {
        "const "@.len()
    } else if has_prefix(t, "volatile "@) {
        "volatile "@.len()
    } else {
        0
    }
}

/// `s` trimmed, with leading qualifier keywords removed (re-trimming after each).
pub open spec fn strip_spec(s: Seq<char>) -> Seq<char>
    decreases s.len(),
{
    let t = trim(s);
    let q = qualifier_len(t);
    if 0 < q <= t.len() {
        proof {
            lemma_trim_len(s);
        }
        strip_spec(t.subrange(q as int, t.len() as int))
    } else {
        t
    }
}

/// Stripping never lengthens a name.
pub proof fn lemma_strip_len(s: Seq<char>)
    ensures
        strip_spec(s).len() <= s.len(),
    decreases s.len(),
{
    let t = trim(s);
    lemma_trim_len(s);
    let q = qualifier_len(t);
    if 0 < q <= t.len() {
        lemma_strip_len(t.subrange(q as int, t.len() as int));
    }
}

/// Stripping gives a trimmed suffix of the trimmed name, and leaves what it
/// gives as it is.
pub proof fn lemma_strip_shape(s: Seq<char>)
    ensures
        is_trimmed(strip_spec(s)),
        is_suffix_of(strip_spec(s), trim(s)),
        strip_spec(strip_spec(s)) == strip_spec(s),
    decreases s.len(),
{
    let t = trim(s);
    lemma_trim_shape(s);
    lemma_trim_len(s);
    let q = qualifier_len(t);
    if 0 < q <= t.len() {
        let u = t.subrange(q as int, t.len() as int);
        lemma_strip_shape(u);
        if u.len() > 0 {
            assert(u.last() == t.last());
        }
        lemma_trim_suffix(u);
        let i1 = choose|i: int| 0 <= i <= u.len() && trim(u) == u.subrange(i, u.len() as int);
        let r = strip_spec(u);
        let i2 = choose|i: int| 0 <= i <= trim(u).len() && r == trim(u).subrange(i, trim(u).len() as int);
        assert(r =~= t.subrange(q + i1 + i2, t.len() as int));
    } else {
        assert(t.subrange(0, t.len() as int) =~= t);
        assert(trim(t) == t);
    }
}

fn qualifier_len_exec(t: &[char]) -> (q: usize)
    ensures
        q == qualifier_len(t@),
{
    if starts_with_str(t, "class ") {
        proof {
            reveal_strlit("class ");
        }
        6
    } else if starts_with_str(t, "struct ") {
        proof {
            reveal_strlit("struct ");
        }
        7
    } else if starts_with_str(t, "enum ") {
        proof {
            reveal_strlit("enum ");
        }
        5
    } else if starts_with_str(t, "const ") {
        proof {
            reveal_strlit("const ");
        }
        6
    } else if starts_with_str(t, "volatile ") {
        proof {
            reveal_strlit("volatile ");
        }
        9
    } else {
        0
    }
}

/// The bounds `(a, b)` with `s[a..b] == strip_spec(s)`.
pub fn strip_bounds(s: &[char]) -> (r: (usize, usize))
    ensures
        r.0 <= r.1 <= s.len(),
        s@.subrange(r.0 as int, r.1 as int) == strip_spec(s@),
{
    let mut a: usize = 0;
    let mut b: usize = s.len();
    assert(s@.subrange(0, s.len() as int) =~= s@);
    loop
        invariant
            a <= b <= s.len(),
            strip_spec(s@.subrange(a as int, b as int)) == strip_spec(s@),
        decreases b - a,
    {
        let cur = vstd::slice::slice_subrange(s, a, b);
        let (ta, tb) = trim_bounds(cur);
        let t = vstd::slice::slice_subrange(cur, ta, tb);
        let q = qualifier_len_exec(t);
        assert(t@ =~= s@.subrange(a + ta, a + tb));
        if q > 0 && q <= tb - ta {
            assert(t@.subrange(q as int, t@.len() as int) =~= s@.subrange(a + ta + q, a + tb));
            b = a + tb;
            a = a + ta + q;
        } else {
            return (a + ta, a + tb);
        }
    }
}

/// Copies `strip_spec(s)`.
pub fn strip_chars(s: &[char]) -> (r: Vec<char>)
    ensures
        r@ == strip_spec(s@),
{
    let (a, b) = strip_bounds(s);
    slice_of(s, a, b)
}

/// Trims `s` and removes leading `class `/`struct `/`enum `/`const `/`volatile `
/// keywords.
pub fn strip_qualifiers(s: &str) -> (r: &str)
    ensures
        r@ == strip_spec(s@),
{
    let cs = chars_of(s);
    let (a, b) = strip_bounds(&cs);
    s.substring_char(a, b)
}

// ---------------------------------------------------------------------------
// Template argument lists
// ---------------------------------------------------------------------------

/// `acc` with the trimmed `part` appended when it is non-empty.
pub open spec fn push_part(acc: Seq<Seq<char>>, part: Seq<char>) -> Seq<Seq<char>> {
    if trim(part).len() > 0 {
        acc.push(trim(part))
    } else {
        acc
    }
}

/// Scans `s` from index `i` at bracket depth `depth`, the current argument
/// having begun at `start`, with the arguments found so far in `acc`.
pub open spec fn args_from(
    s: Seq<char>,
    i: int,
    depth: nat,
    start: int,
    acc: Seq<Seq<char>>,
) -> Seq<Seq<char>>
    decreases s.len() - i,
{
    if i < 0 || i >= s.len() {
        push_part(acc, s.subrange(start, s.len() as int))
    } else if s[i] == '<' {
        args_from(s, i + 1, depth + 1, start, acc)
    } else if s[i] == '>' {
        if depth == 0 {
            push_part(acc, s.subrange(start, i))
        } else {
            args_from(s, i + 1, (depth - 1) as nat, start, acc)
        }
    } else if s[i] == ',' && depth == 0 {
        args_from(s, i + 1, depth, i + 1, push_part(acc, s.subrange(start, i)))
    } else {
        args_from(s, i + 1, depth, start, acc)
    }
}

/// The trimmed, non-empty arguments separated by top-level commas, up to the
/// first unmatched `>` (or the end of `s`).
pub open spec fn template_args(s: Seq<char>) -> Seq<Seq<char>> {
    args_from(s, 0, 0, 0, seq![])
}

proof fn lemma_push_part_len(s: Seq<char>, acc: Seq<Seq<char>>, a: int, b: int)
    requires
        0 <= a <= b <= s.len(),
        forall|k: int| 0 <= k < acc.len() ==> (#[trigger] acc[k]).len() <= s.len(),
    ensures
        forall|k: int|
            0 <= k < push_part(acc, s.subrange(a, b)).len() ==> (#[trigger] push_part(
                acc,
                s.subrange(a, b),
            )[k]).len() <= s.len(),
{
    lemma_trim_len(s.subrange(a, b));
    let r = push_part(acc, s.subrange(a, b));
    assert forall|k: int| 0 <= k < r.len() implies (#[trigger] r[k]).len() <= s.len() by {
        if k < acc.len() {
            assert(r[k] == acc[k]);
        }
    }
}

proof fn lemma_args_from_len(s: Seq<char>, i: int, depth: nat, start: int, acc: Seq<Seq<char>>)
    requires
        0 <= start <= i <= s.len(),
        forall|k: int| 0 <= k < acc.len() ==> (#[trigger] acc[k]).len() <= s.len(),
    ensures
        forall|k: int|
            0 <= k < args_from(s, i, depth, start, acc).len() ==> (#[trigger] args_from(
                s,
                i,
                depth,
                start,
                acc,
            )[k]).len() <= s.len(),
    decreases s.len() - i,
{
    let r = args_from(s, i, depth, start, acc);
    if i >= s.len() {
        lemma_push_part_len(s, acc, start, s.len() as int);
        assert(r == push_part(acc, s.subrange(start, s.len() as int)));
    } else if s[i] == '<' {
        lemma_args_from_len(s, i + 1, depth + 1, start, acc);
        assert(r == args_from(s, i + 1, depth + 1, start, acc));
    } else if s[i] == '>' {
        if depth == 0 {
            lemma_push_part_len(s, acc, start, i);
            assert(r == push_part(acc, s.subrange(start, i)));
        } else {
            lemma_args_from_len(s, i + 1, (depth - 1) as nat, start, acc);
            assert(r == args_from(s, i + 1, (depth - 1) as nat, start, acc));
        }
    } else if s[i] == ',' && depth == 0 {
        lemma_push_part_len(s, acc, start, i);
        lemma_args_from_len(s, i + 1, depth, i + 1, push_part(acc, s.subrange(start, i)));
        assert(r == args_from(s, i + 1, depth, i + 1, push_part(acc, s.subrange(start, i))));
    } else {
        lemma_args_from_len(s, i + 1, depth, start, acc);
        assert(r == args_from(s, i + 1, depth, start, acc));
    }}

/// No template argument is longer than the text it came from.
pub proof fn lemma_template_args_len(s: Seq<char>)
    ensures
        forall|k: int|
            0 <= k < template_args(s).len() ==> (#[trigger] template_args(s)[k]).len() <= s.len(),
{
    lemma_args_from_len(s, 0, 0, 0, seq![]);
}

fn push_part_exec(acc: &mut Vec<Vec<char>>, s: &[char], start: usize, end: usize)
    requires
        start <= end <= s.len(),
    ensures
        final(acc).deep_view() == push_part(old(acc).deep_view(), s@.subrange(start as int, end as int)),
{
    let part = vstd::slice::slice_subrange(s, start, end);
    let t = trimmed(part);
    if t.len() > 0 {
        let ghost prev = acc.deep_view();
        let ghost tv = t@;
        acc.push(t);
        assert(acc.deep_view() =~= prev.push(tv)) by {
            assert(acc@.last().deep_view() =~= tv);
        }
    }
}

/// The argument list of `s` as character vectors.
pub fn template_args_chars(s: &[char]) -> (r: Vec<Vec<char>>)
    ensures
        r.deep_view() == template_args(s@),
{
    let mut acc: Vec<Vec<char>> = Vec::new();
    let mut depth: usize = 0;
    let mut start: usize = 0;
    let mut i: usize = 0;
    assert(acc.deep_view() =~= Seq::<Seq<char>>::empty());
    while i < s.len()
        invariant
            start <= i <= s.len(),
            depth <= i,
            args_from(s@, i as int, depth as nat, start as int, acc.deep_view()) == template_args(
                s@,
            ),
        decreases s.len() - i,
    {
        let c = s[i];
        if c == '<' {
            depth = depth + 1;
        } else if c == '>' {
            if depth == 0 {
                push_part_exec(&mut acc, s, start, i);
                return acc;
            }
            depth = depth - 1;
        } else if c == ',' && depth == 0 {
            push_part_exec(&mut acc, s, start, i);
            start = i + 1;
        }
        i = i + 1;
    }
    push_part_exec(&mut acc, s, start, s.len());
    acc
}

/// Splits a template argument list at top-level commas, stopping at the first
/// unmatched `>`; each argument is trimmed and empty ones are dropped.
pub fn extract_template_args(s: &str) -> (r: Vec<String>)
    ensures
        r.deep_view() == template_args(s@),
{
    let cs = chars_of(s);
    let args = template_args_chars(&cs);
    strings_of(&args)
}

/// Index of the `>` closing the bracket opened just before `s` (first `>` at
/// depth zero), scanning from `i` at depth `depth`.
pub open spec fn close_from(s: Seq<char>, i: int, depth: nat) -> Option<int>
    decreases s.len() - i,
{
    if i < 0 || i >= s.len() {
        None
    } else if s[i] == '<' {
        close_from(s, i + 1, depth + 1)
    } else if s[i] == '>' {
        if depth == 0 {
            Some(i)
        } else {
            close_from(s, i + 1, (depth - 1) as nat)
        }
    } else {
        close_from(s, i + 1, depth)
    }
}

/// Index of the first `>` at bracket depth zero.
pub open spec fn closing_index(s: Seq<char>) -> Option<int> {
    close_from(s, 0, 0)
}

proof fn lemma_close_from_bounds(s: Seq<char>, i: int, depth: nat)
    requires
        0 <= i,
    ensures
        close_from(s, i, depth) matches Some(c) ==> i <= c < s.len() && s[c] == '>',
    decreases s.len() - i,
{
    if i < s.len() {
        if s[i] == '<' {
            lemma_close_from_bounds(s, i + 1, depth + 1);
        } else if s[i] == '>' {
            if depth > 0 {
                lemma_close_from_bounds(s, i + 1, (depth - 1) as nat);
            }
        } else {
            lemma_close_from_bounds(s, i + 1, depth);
        }
    }
}

/// Where `closing_index` lands.
pub proof fn lemma_closing_index_bounds(s: Seq<char>)
    ensures
        closing_index(s) matches Some(c) ==> 0 <= c < s.len() && s[c] == '>',
{
    lemma_close_from_bounds(s, 0, 0);
}

/// `closing_index` computed.
pub fn closing_index_exec(s: &[char]) -> (r: Option<usize>)
    ensures
        r matches Some(c) ==> closing_index(s@) == Some(c as int),
        r is None ==> closing_index(s@) is None,
{
    let mut depth: usize = 0;
    let mut i: usize = 0;
    while i < s.len()
        invariant
            i <= s.len(),
            depth <= i,
            close_from(s@, i as int, depth as nat) == closing_index(s@),
        decreases s.len() - i,
    {
        let c = s[i];
        if c == '<' {
            depth = depth + 1;
        } else if c == '>' {
            if depth == 0 {
                return Some(i);
            }
            depth = depth - 1;
        }
        i = i + 1;
    }
    None
}

/// The trimmed text between `prefix<` and its closing `>` in the stripped `s`.
pub open spec fn inner_template_spec(s: Seq<char>, prefix: Seq<char>) -> Option<Seq<char>> {
    let st = strip_spec(s);
    let pfx = prefix.push('<');
    if !has_prefix(st, pfx) {
        None
    } else {
        let rest = st.subrange(pfx.len() as int, st.len() as int);
        match closing_index(rest) {
            Some(c) => Some(trim(rest.take(c))),
            None => None,
        }
    }
}

/// `inner_template_spec` computed on character vectors.
pub fn inner_template_chars(s: &[char], prefix: &[char]) -> (r: Option<Vec<char>>)
    ensures
        r.deep_view() == inner_template_spec(s@, prefix@),
{
    let st = strip_chars(s);
    let mut pfx = slice_of(prefix, 0, prefix.len());
    pfx.push('<');
    assert(pfx@ =~= prefix@.push('<'));
    if !starts_with(&st, &pfx) {
        return None;
    }
    let rest = vstd::slice::slice_subrange(st.as_slice(), pfx.len(), st.len());
    match closing_index_exec(rest) {
        Some(c) => {
            proof {
                lemma_closing_index_bounds(rest@);
            }
            let head = vstd::slice::slice_subrange(rest, 0, c);
            assert(head@ =~= rest@.take(c as int));
            let t = trimmed(head);
            assert(t.deep_view() =~= t@);
            Some(t)
        },
        None => None,
    }
}

/// The text inside `prefix<...>` when the stripped `s` starts with that
/// template.
pub fn extract_inner_template(s: &str, prefix: &str) -> (r: Option<String>)
    ensures
        r.deep_view() == inner_template_spec(s@, prefix@),
{
    let cs = chars_of(s);
    let ps = chars_of(prefix);
    let r = inner_template_chars(&cs, &ps);
    opt_string_of(&r)
}

// ---------------------------------------------------------------------------
// Primitive names
// ---------------------------------------------------------------------------

/// The fixed-width spelling of an MSVC primitive type name.
pub open spec fn primitive_spec(s: Seq<char>) -> Seq<char> {
    if s == "int"@ {
        "int32_t"@
    } else if s == "__int64"@ || s == "long long"@ {
        "int64_t"@
    } else if s == "short"@ {
        "int16_t"@
    } else if s == "signed char"@ {
        "char"@
    } else if s == "unsigned int"@ {
        "uint32_t"@
    } else if s == "unsigned __int64"@ || s == "unsigned long long"@ {
        "uint64_t"@
    } else if s == "unsigned short"@ {
        "uint16_t"@
    } else if s == "unsigned char"@ {
        "uint8_t"@
    } else {
        s
    }
}

/// `primitive_spec` on character vectors.
pub fn primitive_chars(s: &[char]) -> (r: Vec<char>)
    ensures
        r@ == primitive_spec(s@),
{
    if eq_str(s, "int") {
        chars_of("int32_t")
    } else if eq_str(s, "__int64") || eq_str(s, "long long") {
        chars_of("int64_t")
    } else if eq_str(s, "short") {
        chars_of("int16_t")
    } else if eq_str(s, "signed char") {
        chars_of("char")
    } else if eq_str(s, "unsigned int") {
        chars_of("uint32_t")
    } else if eq_str(s, "unsigned __int64") || eq_str(s, "unsigned long long") {
        chars_of("uint64_t")
    } else if eq_str(s, "unsigned short") {
        chars_of("uint16_t")
    } else if eq_str(s, "unsigned char") {
        chars_of("uint8_t")
    } else {
        slice_of(s, 0, s.len())
    }
}

/// Maps MSVC primitive spellings (`int`, `__int64`, `unsigned char`, ...) to
/// fixed-width names; other names are returned unchanged.
pub fn normalize_primitive(s: &str) -> (r: &str)
    ensures
        r@ == primitive_spec(s@),
{
    let cs = chars_of(s);
    if eq_str(&cs, "int") {
        "int32_t"
    } else if eq_str(&cs, "__int64") || eq_str(&cs, "long long") {
        "int64_t"
    } else if eq_str(&cs, "short") {
        "int16_t"
    } else if eq_str(&cs, "signed char") {
        "char"
    } else if eq_str(&cs, "unsigned int") {
        "uint32_t"
    } else if eq_str(&cs, "unsigned __int64") || eq_str(&cs, "unsigned long long") {
        "uint64_t"
    } else if eq_str(&cs, "unsigned short") {
        "uint16_t"
    } else if eq_str(&cs, "unsigned char") {
        "uint8_t"
    } else {
        s
    }
}

// ---------------------------------------------------------------------------
// Normalisation
// ---------------------------------------------------------------------------

/// Rebuilds a template name from its normalised arguments: single-argument
/// wrappers keep the first argument, maps keep two, `Polymorphic` keeps one and
/// every other template keeps all of them.
pub open spec fn assemble_spec(tpl: Seq<char>, args: Seq<Seq<char>>) -> Seq<char> {
    if tpl == "std::optional"@ || tpl == "std::vector"@ || tpl == "std::shared_ptr"@ || tpl
        == "std::unique_ptr"@ {
        if args.len() > 0 {
            tpl + "<"@ + args[0] + ">"@
        } else {
            tpl
        }
    } else if tpl == "std::map"@ || tpl == "std::unordered_map"@ {
        if args.len() >= 2 {
            tpl + "<"@ + args[0] + ", "@ + args[1] + ">"@
        } else {
            tpl
        }
    } else if tpl == "Api::OneMe::Types::Polymorphic"@ {
        if args.len() > 0 {
            "Api::OneMe::Types::Polymorphic<"@ + args[0] + ">"@
        } else {
            tpl
        }
    } else {
        tpl + "<"@ + join_seqs(args, ", "@) + ">"@
    }
}

/// Normalised form of `raw`, recursing into template arguments while `fuel`
/// lasts.
pub open spec fn normalize_fuel(raw: Seq<char>, fuel: nat) -> Seq<char>
    decreases fuel, 0nat,
{
    let s = strip_spec(raw);
    if s.len() == 0 {
        seq![]
    } else if !contains_seq(s, seq!['<']) {
        primitive_spec(s)
    } else if has_prefix(s, "std::basic_string<"@) {
        "std::string"@
    } else if has_prefix(s, "std::basic_string_view<"@) {
        "std::string_view"@
    } else {
        match find_first(s, seq!['<']) {
            None => s,
            Some(idx) => {
                let tpl = strip_spec(s.take(idx));
                let rest = s.subrange(idx + 1, s.len() as int);
                match closing_index(rest) {
                    None => s,
                    Some(c) => {
                        let args = template_args(rest.take(c));
                        if fuel == 0 {
                            s
                        } else {
                            assemble_spec(tpl, normalize_list(args, (fuel - 1) as nat))
                        }
                    },
                }
            },
        }
    }
}

/// `normalize_fuel` applied to each of `args`.
pub open spec fn normalize_list(args: Seq<Seq<char>>, fuel: nat) -> Seq<Seq<char>>
    decreases fuel, args.len(),
{
    if args.len() == 0 {
        seq![]
    } else {
        normalize_list(args.drop_last(), fuel).push(normalize_fuel(args.last(), fuel))
    }
}

proof fn lemma_normalize_list(args: Seq<Seq<char>>, fuel: nat)
    ensures
        normalize_list(args, fuel).len() == args.len(),
        forall|k: int|
            0 <= k < args.len() ==> #[trigger] normalize_list(args, fuel)[k] == normalize_fuel(
                args[k],
                fuel,
            ),
    decreases args.len(),
{
    if args.len() > 0 {
        lemma_normalize_list(args.drop_last(), fuel);
    }
}

/// The canonical spelling of a type name: qualifiers stripped, primitives
/// renamed, `std::basic_string` shortened and template arguments normalised.
pub open spec fn normalize_spec(raw: Seq<char>) -> Seq<char> {
    normalize_fuel(raw, raw.len())
}

/// A trimmed name that starts with no qualifier keyword and holds no `<` is
/// its own stripped form and holds no template.
proof fn lemma_plain_fixed(c: Seq<char>)
    requires
        c.len() > 0,
        !is_ws(c[0]),
        !is_ws(c.last()),
        qualifier_len(c) == 0,
        forall|i: int| 0 <= i < c.len() ==> c[i] != '<',
    ensures
        strip_spec(c) == c,
        !contains_seq(c, seq!['<']),
{
    assert(trim_start(c) == c);
    assert(trim_end(c) == c);
    assert(trim(c) == c);
    lemma_find_first_bounds(c, seq!['<']);
    if let Some(k) = find_first(c, seq!['<']) {
        assert(c.subrange(k, k + 1) == seq!['<']);
        assert(c[k] == c.subrange(k, k + 1)[0]);
    }
}

proof fn lemma_no_prefix(c: Seq<char>, q: Seq<char>)
    requires
        c.len() > 0,
        q.len() > 0,
        c.len() < q.len() || c[0] != q[0],
    ensures
        !has_prefix(c, q),
{
    if has_prefix(c, q) {
        assert(c.subrange(0, q.len() as int)[0] == c[0]);
    }
}

/// Normalising a name whose stripped form holds no template a second time
/// changes nothing.
pub proof fn lemma_normalize_plain_idempotent(raw: Seq<char>)
    requires
        !contains_seq(strip_spec(raw), seq!['<']),
    ensures
        normalize_spec(normalize_spec(raw)) == normalize_spec(raw),
{
    let s = strip_spec(raw);
    let n = normalize_spec(raw);
    lemma_strip_shape(raw);
    if s.len() == 0 {
        assert(n == Seq::<char>::empty());
        assert(trim_start(n) == n);
        assert(trim_end(n) == n);
        assert(qualifier_len(n) == 0);
        assert(strip_spec(n) == n);
    } else {
        assert(n == primitive_spec(s));
        reveal_strlit("int");
        reveal_strlit("__int64");
        reveal_strlit("long long");
        reveal_strlit("short");
        reveal_strlit("signed char");
        reveal_strlit("unsigned int");
        reveal_strlit("unsigned __int64");
        reveal_strlit("unsigned long long");
        reveal_strlit("unsigned short");
        reveal_strlit("unsigned char");
        reveal_strlit("int32_t");
        reveal_strlit("int64_t");
        reveal_strlit("int16_t");
        reveal_strlit("char");
        reveal_strlit("uint32_t");
        reveal_strlit("uint64_t");
        reveal_strlit("uint16_t");
        reveal_strlit("uint8_t");
        reveal_strlit("class ");
        reveal_strlit("struct ");
        reveal_strlit("enum ");
        reveal_strlit("const ");
        reveal_strlit("volatile ");
        if n == s {
            assert(strip_spec(n) == n);
            assert(normalize_fuel(n, n.len()) == primitive_spec(s));
        } else {
            assert(n.len() > 0);
            assert(!is_ws(n[0]));
            assert(!is_ws(n.last()));
            lemma_no_prefix(n, "class "@);
            lemma_no_prefix(n, "struct "@);
            lemma_no_prefix(n, "enum "@);
            lemma_no_prefix(n, "const "@);
            lemma_no_prefix(n, "volatile "@);
            assert(qualifier_len(n) == 0);
            assert(forall|i: int| 0 <= i < n.len() ==> n[i] != '<');
            lemma_plain_fixed(n);
            assert(primitive_spec(n) == n);
            assert(normalize_fuel(n, n.len()) == primitive_spec(n));
        }
    }
}

/// No `<`, `>` or `,` in `s`.
pub open spec fn plain_text(s: Seq<char>) -> bool {
    forall|i: int| 0 <= i < s.len() ==> s[i] != '<' && s[i] != '>' && s[i] != ','
}

/// A non-empty trimmed name with no `<`, `>` or `,`.
pub open spec fn plain_part(s: Seq<char>) -> bool {
    s.len() > 0 && is_trimmed(s) && plain_text(s)
}

/// No `<` and no `>` in `s`.
pub open spec fn no_angle(s: Seq<char>) -> bool {
    forall|i: int| 0 <= i < s.len() ==> s[i] != '<' && s[i] != '>'
}

proof fn lemma_no_lt(c: Seq<char>)
    requires
        forall|i: int| 0 <= i < c.len() ==> c[i] != '<',
    ensures
        !contains_seq(c, seq!['<']),
{
    lemma_find_first_bounds(c, seq!['<']);
    if let Some(k) = find_first(c, seq!['<']) {
        assert(c.subrange(k, k + 1) == seq!['<']);
        assert(c[k] == c.subrange(k, k + 1)[0]);
    }
}

proof fn lemma_trim_plain(x: Seq<char>)
    requires
        plain_text(x),
    ensures
        plain_text(trim(x)),
        is_trimmed(trim(x)),
{
    lemma_trim_piece(x);
    lemma_trim_shape(x);
    let (a, b) = choose|a: int, b: int| 0 <= a <= b <= x.len() && trim(x) == x.subrange(a, b);
    assert forall|i: int| 0 <= i < trim(x).len() implies trim(x)[i] != '<' && trim(x)[i] != '>' && trim(x)[i] != ',' by {
        assert(trim(x)[i] == x[a + i]);
    }
}

proof fn lemma_trim_start_last(s: Seq<char>)
    requires
        s.len() > 0,
        !is_ws(s.last()),
    ensures
        trim_start(s).len() > 0,
        trim_start(s).last() == s.last(),
    decreases s.len(),
{
    if is_ws(s[0]) {
        assert(s.len() >= 2);
        assert(s.drop_first().last() == s.last());
        lemma_trim_start_last(s.drop_first());
    }
}

proof fn lemma_prefix_last(t: Seq<char>, q: Seq<char>)
    requires
        has_prefix(t, q),
        q.len() == t.len(),
        q.len() > 0,
    ensures
        t.last() == q.last(),
{
    assert(t.subrange(0, q.len() as int) =~= t);
}

/// The qualifier at the start of `t` that `qualifier_len` measures.
spec fn qualifier_at(t: Seq<char>) -> Seq<char> {
    if has_prefix(t, "class "@) {
        "class "@
    } else if has_prefix(t, "struct "@) {
        "struct "@
    } else if has_prefix(t, "enum "@) {
        "enum "@
    } else if has_prefix(t, "const "@) {
        "const "@
    } else {
        "volatile "@
    }
}

proof fn lemma_strip_nonempty(s: Seq<char>)
    requires
        s.len() > 0,
        !is_ws(s.last()),
    ensures
        strip_spec(s).len() > 0,
    decreases s.len(),
{
    let x = trim_start(s);
    lemma_trim_start_last(s);
    assert(trim_end(x) == x);
    let t = trim(s);
    assert(t == x);
    lemma_trim_len(s);
    let q = qualifier_len(t);
    if 0 < q <= t.len() {
        let qs = qualifier_at(t);
        assert(has_prefix(t, qs) && qs.len() == q);
        reveal_strlit("class ");
        reveal_strlit("struct ");
        reveal_strlit("enum ");
        reveal_strlit("const ");
        reveal_strlit("volatile ");
        if q == t.len() {
            lemma_prefix_last(t, qs);
            assert(qs.last() == ' ');
            assert(false);
        }
        let u = t.subrange(q as int, t.len() as int);
        assert(u.last() == t.last());
        lemma_strip_nonempty(u);
    }
}

proof fn lemma_strip_qual(s: Seq<char>)
    ensures
        qualifier_len(strip_spec(s)) == 0,
    decreases s.len(),
{
    let t = trim(s);
    lemma_trim_len(s);
    let q = qualifier_len(t);
    if 0 < q <= t.len() {
        lemma_strip_qual(t.subrange(q as int, t.len() as int));
    }
}

/// A plain argument normalises to a plain name that normalising again leaves
/// as it is.
proof fn lemma_plain_arg(a: Seq<char>, f: nat)
    requires
        plain_part(a),
    ensures
        plain_part(normalize_fuel(a, f)),
        forall|g: nat| #[trigger] normalize_fuel(normalize_fuel(a, f), g) == normalize_fuel(a, f),
{
    let s = strip_spec(a);
    let n = normalize_fuel(a, f);
    lemma_strip_shape(a);
    lemma_trim_shape(a);
    let i = choose|i: int| 0 <= i <= trim(a).len() && s == trim(a).subrange(i, trim(a).len() as int);
    assert forall|k: int| 0 <= k < s.len() implies s[k] != '<' && s[k] != '>' && s[k] != ',' by {
        assert(s[k] == a[i + k]);
    }
    lemma_strip_nonempty(a);
    lemma_no_lt(s);
    assert(n == primitive_spec(s));
    reveal_strlit("int");
    reveal_strlit("__int64");
    reveal_strlit("long long");
    reveal_strlit("short");
    reveal_strlit("signed char");
    reveal_strlit("unsigned int");
    reveal_strlit("unsigned __int64");
    reveal_strlit("unsigned long long");
    reveal_strlit("unsigned short");
    reveal_strlit("unsigned char");
    reveal_strlit("int32_t");
    reveal_strlit("int64_t");
    reveal_strlit("int16_t");
    reveal_strlit("char");
    reveal_strlit("uint32_t");
    reveal_strlit("uint64_t");
    reveal_strlit("uint16_t");
    reveal_strlit("uint8_t");
    reveal_strlit("class ");
    reveal_strlit("struct ");
    reveal_strlit("enum ");
    reveal_strlit("const ");
    reveal_strlit("volatile ");
    if n == s {
        assert forall|g: nat| #[trigger] normalize_fuel(n, g) == n by {
            assert(strip_spec(n) == n);
        }
    } else {
        assert(n.len() > 0);
        assert(!is_ws(n[0]));
        assert(!is_ws(n.last()));
        lemma_no_prefix(n, "class "@);
        lemma_no_prefix(n, "struct "@);
        lemma_no_prefix(n, "enum "@);
        lemma_no_prefix(n, "const "@);
        lemma_no_prefix(n, "volatile "@);
        assert(qualifier_len(n) == 0);
        assert(plain_text(n));
        lemma_plain_fixed(n);
        assert(primitive_spec(n) == n);
        assert forall|g: nat| #[trigger] normalize_fuel(n, g) == n by {
            assert(strip_spec(n) == n);
        }
    }
}

proof fn lemma_find_lt(s: Seq<char>, i: int, m: int)
    requires
        0 <= i <= m < s.len(),
        forall|k: int| i <= k < m ==> s[k] != '<',
        s[m] == '<',
    ensures
        find_from(s, seq!['<'], i) == Some(m),
    decreases m - i,
{
    if i < m {
        if occurs_at(s, seq!['<'], i) {
            assert(s[i] == s.subrange(i, i + 1)[0]);
        }
        lemma_find_lt(s, i + 1, m);
    } else {
        assert(s.subrange(i, i + 1) =~= seq!['<']);
    }
}

proof fn lemma_find_min(s: Seq<char>, i: int, m: int)
    requires
        0 <= i,
        find_from(s, seq!['<'], i) == Some(m),
    ensures
        i <= m < s.len(),
        s[m] == '<',
        forall|k: int| i <= k < m ==> s[k] != '<',
    decreases s.len() - i,
{
    if occurs_at(s, seq!['<'], i) {
        assert(s[i] == s.subrange(i, i + 1)[0]);
    } else {
        if i + 1 <= s.len() && s[i] == '<' {
            assert(s.subrange(i, i + 1) =~= seq!['<']);
        }
        lemma_find_min(s, i + 1, m);
    }
}

proof fn lemma_args_segment(s: Seq<char>, i: int, j: int, start: int, acc: Seq<Seq<char>>)
    requires
        0 <= i <= j <= s.len(),
        forall|k: int| i <= k < j ==> s[k] != '<' && s[k] != '>' && s[k] != ',',
    ensures
        args_from(s, i, 0, start, acc) == args_from(s, j, 0, start, acc),
    decreases j - i,
{
    if i < j {
        lemma_args_segment(s, i + 1, j, start, acc);
    }
}

proof fn lemma_close_segment(s: Seq<char>, i: int, j: int)
    requires
        0 <= i <= j <= s.len(),
        forall|k: int| i <= k < j ==> s[k] != '<' && s[k] != '>',
    ensures
        close_from(s, i, 0) == close_from(s, j, 0),
    decreases j - i,
{
    if i < j {
        lemma_close_segment(s, i + 1, j);
    }
}

proof fn lemma_close_first(s: Seq<char>, i: int, c: int)
    requires
        0 <= i,
        close_from(s, i, 0) == Some(c),
        forall|k: int| i <= k < c ==> s[k] != '<',
    ensures
        forall|k: int| i <= k < c ==> s[k] != '>',
    decreases s.len() - i,
{
    lemma_close_from_bounds(s, i, 0);
    if i < c {
        assert(s[i] != '<');
        if s[i] != '>' {
            lemma_close_first(s, i + 1, c);
        }
    }
}

proof fn lemma_args_plain(s: Seq<char>, i: int, start: int, acc: Seq<Seq<char>>)
    requires
        0 <= start <= i <= s.len(),
        no_angle(s),
        forall|k: int| start <= k < i ==> s[k] != ',',
        forall|k: int| 0 <= k < acc.len() ==> plain_part(#[trigger] acc[k]),
    ensures
        forall|k: int| 0 <= k < args_from(s, i, 0, start, acc).len() ==> plain_part(#[trigger] args_from(s, i, 0, start, acc)[k]),
    decreases s.len() - i,
{
    if i >= s.len() || s[i] == ',' {
        let part = s.subrange(start, i);
        assert(plain_text(part));
        lemma_trim_plain(part);
        let acc2 = push_part(acc, part);
        assert forall|k: int| 0 <= k < acc2.len() implies plain_part(#[trigger] acc2[k]) by {
            if k < acc.len() {
                assert(acc2[k] == acc[k]);
            }
        }
        if i < s.len() {
            assert(args_from(s, i, 0, start, acc) == args_from(s, i + 1, 0, i + 1, acc2));
            lemma_args_plain(s, i + 1, i + 1, acc2);
        } else {
            assert(args_from(s, i, 0, start, acc) == acc2);
        }
    } else {
        assert(s[i] != '<' && s[i] != '>');
        assert(args_from(s, i, 0, start, acc) == args_from(s, i + 1, 0, start, acc));
        lemma_args_plain(s, i + 1, start, acc);
    }
}

proof fn lemma_join_angle(parts: Seq<Seq<char>>, sep: Seq<char>)
    requires
        no_angle(sep),
        forall|k: int| 0 <= k < parts.len() ==> no_angle(#[trigger] parts[k]),
    ensures
        no_angle(join_seqs(parts, sep)),
    decreases parts.len(),
{
    if parts.len() >= 2 {
        lemma_join_angle(parts.drop_last(), sep);
        assert(parts.drop_last().len() == parts.len() - 1);
        assert forall|k: int| 0 <= k < parts.drop_last().len() implies no_angle(#[trigger] parts.drop_last()[k]) by {
            assert(parts.drop_last()[k] == parts[k]);
        }
        lemma_join_angle(parts.drop_last(), sep);
        assert(no_angle(parts.last()));
    } else if parts.len() == 1 {
        assert(no_angle(parts[0]));
    }
}

proof fn lemma_trim_space(x: Seq<char>)
    requires
        plain_part(x),
    ensures
        trim(" "@ + x) == x,
{
    reveal_strlit(" ");
    let y = " "@ + x;
    assert(is_ws(y[0]));
    assert(y.drop_first() =~= x);
    assert(trim_start(y) == trim_start(x));
    assert(trim_start(x) == x);
    assert(trim_end(x) == x);
}

proof fn lemma_scan_join(parts: Seq<Seq<char>>, tail: Seq<char>)
    requires
        parts.len() >= 1,
        forall|k: int| 0 <= k < parts.len() ==> plain_part(#[trigger] parts[k]),
    ensures
        exists|st: int|
            0 <= st <= join_seqs(parts, ", "@).len() && trim(
                (join_seqs(parts, ", "@) + tail).subrange(st, join_seqs(parts, ", "@).len() as int),
            ) == parts.last() && #[trigger] args_from(join_seqs(parts, ", "@) + tail, 0, 0, 0, seq![])
                == args_from(
                join_seqs(parts, ", "@) + tail,
                join_seqs(parts, ", "@).len() as int,
                0,
                st,
                parts.drop_last(),
            ),
    decreases parts.len(),
{
    reveal_strlit(", ");
    reveal_strlit(" ");
    let j = join_seqs(parts, ", "@);
    let s = j + tail;
    if parts.len() == 1 {
        assert(j == parts[0]);
        assert forall|k: int| 0 <= k < j.len() implies s[k] != '<' && s[k] != '>' && s[k] != ',' by {
            assert(s[k] == parts[0][k]);
        }
        lemma_args_segment(s, 0, j.len() as int, 0, seq![]);
        assert(s.subrange(0, j.len() as int) =~= parts[0]);
        lemma_trim_shape(parts[0]);
        assert(parts.drop_last() =~= Seq::<Seq<char>>::empty());
        assert(0 <= 0 <= j.len() && trim(s.subrange(0, j.len() as int)) == parts.last() && args_from(s, 0, 0, 0, seq![])
            == args_from(s, j.len() as int, 0, 0, parts.drop_last()));
    } else {
        let d = parts.drop_last();
        let jd = join_seqs(d, ", "@);
        let last = parts.last();
        assert(j == jd + ", "@ + last);
        let tail2 = ", "@ + last + tail;
        assert(s =~= jd + tail2);
        assert forall|k: int| 0 <= k < d.len() implies plain_part(#[trigger] d[k]) by {
            assert(d[k] == parts[k]);
        }
        lemma_scan_join(d, tail2);
        let st0 = choose|st: int|
            0 <= st <= jd.len() && trim((jd + tail2).subrange(st, jd.len() as int)) == d.last() && #[trigger] args_from(
                jd + tail2,
                0,
                0,
                0,
                seq![],
            ) == args_from(jd + tail2, jd.len() as int, 0, st, d.drop_last());
        let p = jd.len() as int;
        assert(s[p] == ',');
        let acc1 = push_part(d.drop_last(), s.subrange(st0, p));
        assert(acc1 =~= d);
        assert(args_from(s, p, 0, st0, d.drop_last()) == args_from(s, p + 1, 0, p + 1, acc1));
        assert forall|k: int| p + 1 <= k < j.len() implies s[k] != '<' && s[k] != '>' && s[k] != ',' by {
            if k == p + 1 {
                assert(s[k] == ' ');
            } else {
                assert(s[k] == last[k - p - 2]);
            }
        }
        lemma_args_segment(s, p + 1, j.len() as int, p + 1, acc1);
        assert(s.subrange(p + 1, j.len() as int) =~= " "@ + last);
        lemma_trim_space(last);
        assert(0 <= p + 1 <= j.len() && trim(s.subrange(p + 1, j.len() as int)) == parts.last() && args_from(s, 0, 0, 0, seq![])
            == args_from(s, j.len() as int, 0, p + 1, parts.drop_last()));
    }
}

/// Splitting plain names joined by `, ` gives them back.
proof fn lemma_template_args_join(parts: Seq<Seq<char>>)
    requires
        forall|k: int| 0 <= k < parts.len() ==> plain_part(#[trigger] parts[k]),
    ensures
        template_args(join_seqs(parts, ", "@)) == parts,
{
    let j = join_seqs(parts, ", "@);
    if parts.len() == 0 {
        assert(j == Seq::<char>::empty());
        assert(j.subrange(0, 0) =~= Seq::<char>::empty());
        assert(trim_start(Seq::<char>::empty()) == Seq::<char>::empty());
        assert(trim_end(Seq::<char>::empty()) == Seq::<char>::empty());
        assert(template_args(j) == push_part(seq![], j.subrange(0, 0)));
    } else {
        lemma_scan_join(parts, seq![]);
        assert(j + Seq::<char>::empty() =~= j);
        let st = choose|st: int|
            0 <= st <= j.len() && trim((j + Seq::<char>::empty()).subrange(st, j.len() as int)) == parts.last()
                && #[trigger] args_from(j + Seq::<char>::empty(), 0, 0, 0, seq![]) == args_from(
                j + Seq::<char>::empty(),
                j.len() as int,
                0,
                st,
                parts.drop_last(),
            );
        assert(args_from(j, j.len() as int, 0, st, parts.drop_last()) == push_part(parts.drop_last(), j.subrange(st, j.len() as int)));
        assert(parts.drop_last().push(parts.last()) =~= parts);
    }
}

proof fn lemma_prefix_block(tpl: Seq<char>, x: Seq<char>, q: Seq<char>)
    requires
        q.len() > 0,
        forall|k: int| 0 <= k < q.len() ==> q[k] != '<',
        !has_prefix(tpl, q),
    ensures
        !has_prefix(tpl + "<"@ + x, q),
{
    reveal_strlit("<");
    let o = tpl + "<"@ + x;
    if has_prefix(o, q) {
        if tpl.len() >= q.len() {
            assert(o.subrange(0, q.len() as int) =~= tpl.subrange(0, q.len() as int));
            assert(has_prefix(tpl, q));
        } else {
            assert(o[tpl.len() as int] == '<');
            assert(o.subrange(0, q.len() as int)[tpl.len() as int] == q[tpl.len() as int]);
        }
    }
}

proof fn lemma_prefix_template(tpl: Seq<char>, x: Seq<char>, q: Seq<char>)
    requires
        forall|k: int| 0 <= k < tpl.len() ==> tpl[k] != '<',
        forall|k: int| 0 <= k < q.len() ==> q[k] != '<',
        has_prefix(tpl + "<"@ + x, q + "<"@),
    ensures
        tpl == q,
{
    reveal_strlit("<");
    let o = tpl + "<"@ + x;
    let qq = q + "<"@;
    assert(o.subrange(0, qq.len() as int) == qq);
    if tpl.len() < q.len() {
        assert(o[tpl.len() as int] == '<');
        assert(o.subrange(0, qq.len() as int)[tpl.len() as int] == qq[tpl.len() as int]);
        assert(qq[tpl.len() as int] == q[tpl.len() as int]);
    } else if tpl.len() > q.len() {
        assert(o[q.len() as int] == tpl[q.len() as int]);
        assert(o.subrange(0, qq.len() as int)[q.len() as int] == qq[q.len() as int]);
    } else {
        assert forall|k: int| 0 <= k < tpl.len() implies tpl[k] == q[k] by {
            assert(o[k] == tpl[k]);
            assert(o.subrange(0, qq.len() as int)[k] == qq[k]);
        }
        assert(tpl =~= q);
    }
}

proof fn lemma_second_pass(tpl: Seq<char>, sel: Seq<Seq<char>>, g: nat)
    requires
        strip_spec(tpl) == tpl,
        forall|k: int| 0 <= k < tpl.len() ==> tpl[k] != '<',
        tpl != "std::basic_string"@,
        tpl != "std::basic_string_view"@,
        forall|k: int| 0 <= k < sel.len() ==> plain_part(#[trigger] sel[k]),
        forall|k: int, h: nat| 0 <= k < sel.len() ==> #[trigger] normalize_fuel(sel[k], h) == sel[k],
        g > 0,
    ensures
        normalize_fuel(tpl + "<"@ + join_seqs(sel, ", "@) + ">"@, g) == assemble_spec(tpl, sel),
{
    reveal_strlit("<");
    reveal_strlit(">");
    reveal_strlit(", ");
    reveal_strlit("class ");
    reveal_strlit("struct ");
    reveal_strlit("enum ");
    reveal_strlit("const ");
    reveal_strlit("volatile ");
    reveal_strlit("std::basic_string<");
    reveal_strlit("std::basic_string_view<");
    reveal_strlit("std::basic_string");
    reveal_strlit("std::basic_string_view");
    let j = join_seqs(sel, ", "@);
    let out = tpl + "<"@ + j + ">"@;
    let m = tpl.len() as int;
    assert(out[m] == '<');
    assert(out.last() == '>');
    lemma_strip_shape(tpl);
    if tpl.len() > 0 {
        assert(out[0] == tpl[0]);
    }
    lemma_trim_shape(out);
    assert(trim(out) == out);
    lemma_strip_qual(tpl);
    assert(out =~= tpl + "<"@ + (j + ">"@));
    lemma_prefix_block(tpl, j + ">"@, "class "@);
    lemma_prefix_block(tpl, j + ">"@, "struct "@);
    lemma_prefix_block(tpl, j + ">"@, "enum "@);
    lemma_prefix_block(tpl, j + ">"@, "const "@);
    lemma_prefix_block(tpl, j + ">"@, "volatile "@);
    assert(qualifier_len(out) == 0);
    assert(strip_spec(out) == out);
    assert forall|k: int| 0 <= k < m implies out[k] != '<' by {
        assert(out[k] == tpl[k]);
    }
    lemma_find_lt(out, 0, m);
    assert("std::basic_string<"@ =~= "std::basic_string"@ + "<"@);
    assert("std::basic_string_view<"@ =~= "std::basic_string_view"@ + "<"@);
    if has_prefix(out, "std::basic_string<"@) {
        lemma_prefix_template(tpl, j + ">"@, "std::basic_string"@);
    }
    if has_prefix(out, "std::basic_string_view<"@) {
        lemma_prefix_template(tpl, j + ">"@, "std::basic_string_view"@);
    }
    let rest = out.subrange(m + 1, out.len() as int);
    assert(rest =~= j + ">"@);
    assert(out.take(m) =~= tpl);
    assert(no_angle(", "@));
    assert forall|k: int| 0 <= k < sel.len() implies no_angle(#[trigger] sel[k]) by {}
    lemma_join_angle(sel, ", "@);
    lemma_close_segment(rest, 0, j.len() as int);
    assert(rest[j.len() as int] == '>');
    assert(closing_index(rest) == Some(j.len() as int));
    assert(rest.take(j.len() as int) =~= j);
    lemma_template_args_join(sel);
    lemma_normalize_list(sel, (g - 1) as nat);
    assert(normalize_list(sel, (g - 1) as nat) =~= sel);
}

/// `s` holds a `<`, and either starts with a `std::basic_string` spelling,
/// or its name part holds no whitespace before its first `<` and the
/// arguments up to the matching `>`, where there is one, hold no template of
/// their own.
pub open spec fn one_level_template(s: Seq<char>) -> bool {
    match find_first(s, seq!['<']) {
        None => false,
        Some(idx) => {
            ||| has_prefix(s, "std::basic_string<"@)
            ||| has_prefix(s, "std::basic_string_view<"@)
            ||| {
                &&& strip_spec(s.take(idx)) == s.take(idx)
                &&& match closing_index(s.subrange(idx + 1, s.len() as int)) {
                    None => true,
                    Some(c) => forall|k: int| 0 <= k < c ==> #[trigger] s[idx + 1 + k] != '<',
                }
            }
        },
    }
}

proof fn lemma_no_prefix_at(c: Seq<char>, q: Seq<char>, i: int)
    requires
        0 <= i < q.len(),
        i < c.len(),
        c[i] != q[i],
    ensures
        !has_prefix(c, q),
{
    if has_prefix(c, q) {
        assert(c.subrange(0, q.len() as int)[i] == c[i]);
    }
}

/// A plain literal normalises to itself.
proof fn lemma_plain_literal(c: Seq<char>, g: nat)
    requires
        c == "std::string"@ || c == "std::string_view"@,
    ensures
        normalize_fuel(c, g) == c,
{
    reveal_strlit("std::string");
    reveal_strlit("std::string_view");
    reveal_strlit("class ");
    reveal_strlit("struct ");
    reveal_strlit("enum ");
    reveal_strlit("const ");
    reveal_strlit("volatile ");
    reveal_strlit("int");
    reveal_strlit("__int64");
    reveal_strlit("long long");
    reveal_strlit("short");
    reveal_strlit("signed char");
    reveal_strlit("unsigned int");
    reveal_strlit("unsigned __int64");
    reveal_strlit("unsigned long long");
    reveal_strlit("unsigned short");
    reveal_strlit("unsigned char");
    assert(c.len() > 1 && c[0] == 's' && c[1] == 't');
    assert(!is_ws(c[0]));
    assert(!is_ws(c.last()));
    assert(c[2] == 'd');
    lemma_no_prefix(c, "class "@);
    lemma_no_prefix_at(c, "struct "@, 2);
    lemma_no_prefix(c, "enum "@);
    lemma_no_prefix(c, "const "@);
    lemma_no_prefix(c, "volatile "@);
    assert(qualifier_len(c) == 0);
    assert(forall|i: int| 0 <= i < c.len() ==> c[i] != '<');
    lemma_plain_fixed(c);
    assert(primitive_spec(c) == c);
}

/// Normalising a template name a second time changes nothing, where no
/// whitespace comes before its `<` and its arguments hold no template (see
/// [`one_level_template`]).
pub proof fn lemma_normalize_template_idempotent(raw: Seq<char>)
    requires
        one_level_template(strip_spec(raw)),
    ensures
        normalize_spec(normalize_spec(raw)) == normalize_spec(raw),
{
    reveal_strlit("<");
    reveal_strlit(">");
    reveal_strlit(", ");
    reveal_strlit("std::basic_string<");
    reveal_strlit("std::basic_string_view<");
    reveal_strlit("std::basic_string");
    reveal_strlit("std::basic_string_view");
    let s = strip_spec(raw);
    lemma_strip_len(raw);
    lemma_strip_shape(raw);
    let idx = match find_first(s, seq!['<']) {
        Some(i) => i,
        None => 0,
    };
    lemma_find_min(s, 0, idx);
    assert(contains_seq(s, seq!['<']));
    if has_prefix(s, "std::basic_string<"@) {
        assert(normalize_spec(raw) == "std::string"@);
        lemma_plain_literal("std::string"@, "std::string"@.len());
        return;
    }
    if has_prefix(s, "std::basic_string_view<"@) {
        assert(normalize_spec(raw) == "std::string_view"@);
        lemma_plain_literal("std::string_view"@, "std::string_view"@.len());
        return;
    }
    let tpl = s.take(idx);
    let rest = s.subrange(idx + 1, s.len() as int);
    if closing_index(rest) is None {
        assert(normalize_spec(raw) == s);
        assert(normalize_fuel(s, s.len()) == s);
        return;
    }
    let c = match closing_index(rest) {
        Some(c) => c,
        None => 0,
    };
    lemma_closing_index_bounds(rest);
    assert forall|k: int| 0 <= k < c implies rest[k] != '<' by {
        assert(rest[k] == s[idx + 1 + k]);
    }
    lemma_close_first(rest, 0, c);
    let inner = rest.take(c);
    assert(no_angle(inner));
    lemma_args_plain(inner, 0, 0, seq![]);
    let args = template_args(inner);
    let f1 = (raw.len() - 1) as nat;
    let nl = normalize_list(args, f1);
    lemma_normalize_list(args, f1);
    assert forall|k: int| 0 <= k < nl.len() implies plain_part(#[trigger] nl[k]) by {
        lemma_plain_arg(args[k], f1);
    }
    assert forall|k: int, h: nat| 0 <= k < nl.len() implies #[trigger] normalize_fuel(nl[k], h) == nl[k] by {
        lemma_plain_arg(args[k], f1);
        assert(normalize_fuel(normalize_fuel(args[k], f1), h) == normalize_fuel(args[k], f1));
    }
    assert(contains_seq(s, seq!['<']));
    assert(strip_spec(tpl) == tpl);
    assert(normalize_spec(raw) == assemble_spec(tpl, nl));
    let n = normalize_spec(raw);
    assert forall|k: int| 0 <= k < tpl.len() implies tpl[k] != '<' by {}
    assert(s.subrange(0, idx + 1) =~= tpl + "<"@);
    assert("std::basic_string<"@ =~= "std::basic_string"@ + "<"@);
    assert("std::basic_string_view<"@ =~= "std::basic_string_view"@ + "<"@);
    if tpl == "std::basic_string"@ {
        assert(has_prefix(s, "std::basic_string<"@));
    }
    if tpl == "std::basic_string_view"@ {
        assert(has_prefix(s, "std::basic_string_view<"@));
    }
    let wrapper = tpl == "std::optional"@ || tpl == "std::vector"@ || tpl == "std::shared_ptr"@ || tpl
        == "std::unique_ptr"@;
    let map = tpl == "std::map"@ || tpl == "std::unordered_map"@;
    let poly = tpl == "Api::OneMe::Types::Polymorphic"@;
    if (wrapper && nl.len() == 0) || (!wrapper && map && nl.len() < 2) || (!wrapper && !map && poly && nl.len() == 0) {
        assert(n == tpl);
        reveal_strlit("std::optional");
        reveal_strlit("std::vector");
        reveal_strlit("std::shared_ptr");
        reveal_strlit("std::unique_ptr");
        reveal_strlit("std::map");
        reveal_strlit("std::unordered_map");
        reveal_strlit("Api::OneMe::Types::Polymorphic");
        reveal_strlit("int");
        reveal_strlit("__int64");
        reveal_strlit("long long");
        reveal_strlit("short");
        reveal_strlit("signed char");
        reveal_strlit("unsigned int");
        reveal_strlit("unsigned __int64");
        reveal_strlit("unsigned long long");
        reveal_strlit("unsigned short");
        reveal_strlit("unsigned char");
        lemma_no_lt(tpl);
        assert(tpl.len() > 1);
        assert(tpl[0] == 's' || tpl[0] == 'A');
        assert(tpl[1] == 't' || tpl[1] == 'p');
        assert(primitive_spec(tpl) == tpl);
        assert(normalize_fuel(n, n.len()) == primitive_spec(tpl));
    } else {
        let sel = if wrapper || (!map && poly) {
            seq![nl[0]]
        } else if map {
            seq![nl[0], nl[1]]
        } else {
            nl
        };
        assert forall|k: int| 0 <= k < sel.len() implies plain_part(#[trigger] sel[k]) by {
            if sel.len() <= 2 && !(sel =~= nl) {
                assert(sel[k] == nl[k]);
            }
        }
        assert forall|k: int, h: nat| 0 <= k < sel.len() implies #[trigger] normalize_fuel(sel[k], h) == sel[k] by {
            if sel.len() <= 2 && !(sel =~= nl) {
                assert(sel[k] == nl[k]);
            }
        }
        if wrapper || (!map && poly) {
            assert(join_seqs(sel, ", "@) == nl[0]);
        } else if map {
            assert(sel == seq![nl[0], nl[1]]);
            assert(sel.drop_last() =~= seq![nl[0]]);
            assert(join_seqs(seq![nl[0]], ", "@) == nl[0]);
            assert(join_seqs(sel, ", "@) == join_seqs(sel.drop_last(), ", "@) + ", "@ + sel.last());
            assert(join_seqs(sel, ", "@) == nl[0] + ", "@ + nl[1]);
        }
        reveal_strlit("Api::OneMe::Types::Polymorphic");
        reveal_strlit("Api::OneMe::Types::Polymorphic<");
        assert("Api::OneMe::Types::Polymorphic<"@ =~= "Api::OneMe::Types::Polymorphic"@ + "<"@);
        assert(n =~= tpl + "<"@ + join_seqs(sel, ", "@) + ">"@);
        assert(assemble_spec(tpl, sel) == n);
        lemma_second_pass(tpl, sel, n.len());
    }
}

/// The arguments that `normalize_fuel` recurses into are shorter than `raw`.
proof fn lemma_normalize_parts(raw: Seq<char>)
    ensures
        ({
            let s = strip_spec(raw);
            match find_first(s, seq!['<']) {
                None => true,
                Some(idx) => {
                    let rest = s.subrange(idx + 1, s.len() as int);
                    0 <= idx < s.len() && match closing_index(rest) {
                        None => true,
                        Some(c) => {
                            let args = template_args(rest.take(c));
                            forall|k: int|
                                0 <= k < args.len() ==> (#[trigger] args[k]).len() + 2 <= raw.len()
                        },
                    }
                },
            }
        }),
{
    let s = strip_spec(raw);
    lemma_strip_len(raw);
    lemma_find_first_bounds(s, seq!['<']);
    match find_first(s, seq!['<']) {
        None => {},
        Some(idx) => {
            let rest = s.subrange(idx + 1, s.len() as int);
            lemma_closing_index_bounds(rest);
            match closing_index(rest) {
                None => {},
                Some(c) => {
                    lemma_template_args_len(rest.take(c));
                },
            }
        },
    }
}

/// Any fuel at least as large as the name gives the same normalisation.
pub proof fn lemma_normalize_fuel(raw: Seq<char>, f: nat)
    requires
        f >= raw.len(),
    ensures
        normalize_fuel(raw, f) == normalize_spec(raw),
    decreases raw.len(),
{
    lemma_normalize_parts(raw);
    let s = strip_spec(raw);
    lemma_strip_len(raw);
    if s.len() > 0 && contains_seq(s, seq!['<']) && !has_prefix(s, "std::basic_string<"@)
        && !has_prefix(s, "std::basic_string_view<"@) {
        match find_first(s, seq!['<']) {
            None => {},
            Some(idx) => {
                let rest = s.subrange(idx + 1, s.len() as int);
                match closing_index(rest) {
                    None => {},
                    Some(c) => {
                        let args = template_args(rest.take(c));
                        let a1 = normalize_list(args, (f - 1) as nat);
                        let a2 = normalize_list(args, (raw.len() - 1) as nat);
                        lemma_normalize_list(args, (f - 1) as nat);
                        lemma_normalize_list(args, (raw.len() - 1) as nat);
                        assert forall|k: int| 0 <= k < args.len() implies a1[k] == a2[k] by {
                            lemma_normalize_fuel(args[k], (f - 1) as nat);
                            lemma_normalize_fuel(args[k], (raw.len() - 1) as nat);
                        }
                        assert(a1 =~= a2);
                        let tpl = strip_spec(s.take(idx));
                        assert(normalize_fuel(raw, f) == assemble_spec(tpl, a1));
                        assert(normalize_fuel(raw, raw.len()) == assemble_spec(tpl, a2));
                    },
                }
            },
        }
    }
}

fn assemble_chars(tpl: &[char], args: &Vec<Vec<char>>) -> (r: Vec<char>)
    ensures
        r@ == assemble_spec(tpl@, args.deep_view()),
{
    let ghost a = args.deep_view();
    if eq_str(tpl, "std::optional") || eq_str(tpl, "std::vector") || eq_str(tpl, "std::shared_ptr")
        || eq_str(tpl, "std::unique_ptr") {
        if args.len() > 0 {
            assert(a[0] == args[0]@);
            let mut r = slice_of(tpl, 0, tpl.len());
            append_str(&mut r, "<");
            append(&mut r, &args[0]);
            append_str(&mut r, ">");
            r
        } else {
            slice_of(tpl, 0, tpl.len())
        }
    } else if eq_str(tpl, "std::map") || eq_str(tpl, "std::unordered_map") {
        if args.len() >= 2 {
            assert(a[0] == args[0]@);
            assert(a[1] == args[1]@);
            let mut r = slice_of(tpl, 0, tpl.len());
            append_str(&mut r, "<");
            append(&mut r, &args[0]);
            append_str(&mut r, ", ");
            append(&mut r, &args[1]);
            append_str(&mut r, ">");
            r
        } else {
            slice_of(tpl, 0, tpl.len())
        }
    } else if eq_str(tpl, "Api::OneMe::Types::Polymorphic") {
        if args.len() > 0 {
            assert(a[0] == args[0]@);
            let mut r = chars_of("Api::OneMe::Types::Polymorphic<");
            append(&mut r, &args[0]);
            append_str(&mut r, ">");
            r
        } else {
            slice_of(tpl, 0, tpl.len())
        }
    } else {
        let mut r = slice_of(tpl, 0, tpl.len());
        append_str(&mut r, "<");
        let sep = chars_of(", ");
        let joined = join(args, &sep);
        append(&mut r, &joined);
        append_str(&mut r, ">");
        r
    }
}

/// `normalize_spec` on character vectors.
pub fn normalize_chars(raw: &[char]) -> (r: Vec<char>)
    ensures
        r@ == normalize_spec(raw@),
    decreases raw@.len(),
{
    proof {
        lemma_normalize_parts(raw@);
        lemma_strip_len(raw@);
    }
    let s = strip_chars(raw);
    if s.len() == 0 {
        return Vec::new();
    }
    let idx = match find_char(&s, '<') {
        None => {
            return primitive_chars(&s);
        },
        Some(i) => i,
    };
    proof {
        lemma_find_first_bounds(s@, seq!['<']);
    }
    if starts_with_str(&s, "std::basic_string<") {
        return chars_of("std::string");
    }
    if starts_with_str(&s, "std::basic_string_view<") {
        return chars_of("std::string_view");
    }
    let head = vstd::slice::slice_subrange(s.as_slice(), 0, idx);
    let tpl = strip_chars(head);
    let rest = vstd::slice::slice_subrange(s.as_slice(), idx + 1, s.len());
    assert(head@ =~= s@.take(idx as int));
    let c = match closing_index_exec(rest) {
        None => {
            return s;
        },
        Some(c) => c,
    };
    proof {
        lemma_closing_index_bounds(rest@);
    }
    let inner = vstd::slice::slice_subrange(rest, 0, c);
    assert(inner@ =~= rest@.take(c as int));
    let args = template_args_chars(inner);
    let ghost sa = args.deep_view();
    let ghost fuel: nat = (raw@.len() - 1) as nat;
    let mut norm: Vec<Vec<char>> = Vec::new();
    let mut k: usize = 0;
    while k < args.len()
        invariant
            k <= args.len(),
            sa == args.deep_view(),
            sa == template_args(rest@.take(c as int)),
            fuel == raw@.len() - 1,
            forall|j: int| 0 <= j < sa.len() ==> (#[trigger] sa[j]).len() + 2 <= raw@.len(),
            norm.len() == k,
            forall|j: int| 0 <= j < k ==> (#[trigger] norm@[j])@ == normalize_fuel(sa[j], fuel),
        decreases args.len() - k,
    {
        assert(sa[k as int] == args[k as int]@);
        let n = normalize_chars(&args[k]);
        proof {
            lemma_normalize_fuel(args[k as int]@, fuel);
        }
        norm.push(n);
        k = k + 1;
    }
    let ghost expect = normalize_list(sa, fuel);
    proof {
        lemma_normalize_list(sa, fuel);
    }
    assert(norm.deep_view() =~= expect) by {
        assert forall|j: int| 0 <= j < sa.len() implies norm.deep_view()[j] == expect[j] by {
            assert(norm.deep_view()[j] =~= norm@[j]@);
        }
    }
    assert(normalize_spec(raw@) == assemble_spec(tpl@, expect));
    assemble_chars(&tpl, &norm)
}

/// Normalises a demangled type name (see `normalize_spec`).
pub fn normalize_type(raw: &str) -> (r: String)
    ensures
        r@ == normalize_spec(raw@),
{
    let cs = chars_of(raw);
    let n = normalize_chars(&cs);
    string_of(&n)
}

// ---------------------------------------------------------------------------
// Polymorphic bases and decomposition
// ---------------------------------------------------------------------------

/// The normalised first template argument after the first `Polymorphic<`.
pub open spec fn polymorphic_base_spec(s: Seq<char>) -> Option<Seq<char>> {
    match find_first(s, "Polymorphic<"@) {
        None => None,
        Some(idx) => {
            let args = template_args(s.subrange(idx + "Polymorphic<"@.len(), s.len() as int));
            if args.len() > 0 {
                Some(normalize_spec(args[0]))
            } else {
                None
            }
        },
    }
}

/// `polymorphic_base_spec` on character vectors.
pub fn polymorphic_base_chars(s: &[char]) -> (r: Option<Vec<char>>)
    ensures
        r.deep_view() == polymorphic_base_spec(s@),
{
    let pat = chars_of("Polymorphic<");
    let idx = match find(s, &pat) {
        None => {
            return None;
        },
        Some(i) => i,
    };
    proof {
        lemma_find_first_bounds(s@, pat@);
    }
    assert(idx + pat.len() <= s.len());
    let inner = vstd::slice::slice_subrange(s, idx + pat.len(), s.len());
    let args = template_args_chars(inner);
    if args.len() > 0 {
        assert(args.deep_view()[0] == args[0]@);
        let n = normalize_chars(&args[0]);
        assert(n.deep_view() =~= n@);
        Some(n)
    } else {
        None
    }
}

/// The base type named by the first `Polymorphic<...>` in `s`, normalised.
pub fn extract_polymorphic_base(s: &str) -> (r: Option<String>)
    ensures
        r.deep_view() == polymorphic_base_spec(s@),
{
    let cs = chars_of(s);
    let r = polymorphic_base_chars(&cs);
    opt_string_of(&r)
}

/// What remains after unwrapping container templates.
pub enum Peeled {
    /// Unwrapping stopped at `current`.
    Done { current: Seq<char>, optional: bool, array: bool },
    /// A map with two type arguments was reached.
    KeyValue { optional: bool, array: bool, key: Seq<char>, value: Seq<char> },
}

/// Unwraps up to `steps` layers of `std::optional`, `std::vector`,
/// `std::shared_ptr`, `std::unique_ptr` and `Utilities::StrongTypedef`,
/// stopping at a map.
pub open spec fn peel(current: Seq<char>, steps: nat, optional: bool, array: bool) -> Peeled
    decreases steps,
{
    if steps == 0 {
        Peeled::Done { current, optional, array }
    } else {
        let st = strip_spec(current);
        if has_prefix(st, "std::optional<"@) && inner_template_spec(st, "std::optional"@) is Some {
            peel(inner_template_spec(st, "std::optional"@)->0, (steps - 1) as nat, true, array)
        } else if has_prefix(st, "std::vector<"@) && inner_template_spec(st, "std::vector"@) is Some {
            peel(inner_template_spec(st, "std::vector"@)->0, (steps - 1) as nat, optional, true)
        } else if has_prefix(st, "std::shared_ptr<"@) && inner_template_spec(
            st,
            "std::shared_ptr"@,
        ) is Some {
            peel(
                inner_template_spec(st, "std::shared_ptr"@)->0,
                (steps - 1) as nat,
                optional,
                array,
            )
        } else if has_prefix(st, "std::unique_ptr<"@) && inner_template_spec(
            st,
            "std::unique_ptr"@,
        ) is Some {
            peel(
                inner_template_spec(st, "std::unique_ptr"@)->0,
                (steps - 1) as nat,
                optional,
                array,
            )
        } else if has_prefix(st, "Utilities::StrongTypedef<"@) && inner_template_spec(
            st,
            "Utilities::StrongTypedef"@,
        ) is Some {
            peel(
                inner_template_spec(st, "Utilities::StrongTypedef"@)->0,
                (steps - 1) as nat,
                optional,
                array,
            )
        } else if has_prefix(st, "std::map<"@) || has_prefix(st, "std::unordered_map<"@) {
            let pfx = if has_prefix(st, "std::map<"@) {
                "std::map"@
            } else {
                "std::unordered_map"@
            };
            match inner_template_spec(st, pfx) {
                Some(inner) => {
                    let args = template_args(inner);
                    if args.len() >= 2 {
                        Peeled::KeyValue {
                            optional,
                            array,
                            key: normalize_spec(args[0]),
                            value: normalize_spec(args[1]),
                        }
                    } else {
                        Peeled::Done { current, optional, array }
                    }
                },
                None => Peeled::Done { current, optional, array },
            }
        } else {
            Peeled::Done { current, optional, array }
        }
    }
}

/// The decomposition of a raw type name.
pub open spec fn decompose_spec(raw: Seq<char>) -> TypeShape {
    let full = normalize_spec(raw);
    let pb = polymorphic_base_spec(full);
    match peel(full, 6, false, false) {
        Peeled::KeyValue { optional, array, key, value } => TypeShape {
            full,
            name: None,
            optional,
            array,
            map: true,
            map_key: Some(key),
            map_value: Some(value),
            polymorphic: pb is Some,
            polymorphic_base: pb,
        },
        Peeled::Done { current, optional, array } => TypeShape {
            full,
            name: if pb is Some {
                pb
            } else if normalize_spec(current).len() == 0 {
                None
            } else {
                Some(normalize_spec(current))
            },
            optional,
            array,
            map: false,
            map_key: None,
            map_value: None,
            polymorphic: pb is Some,
            polymorphic_base: pb,
        },
    }
}

/// Takes the inner type out of `prefix<...>` when `st` starts with that template.
fn try_unwrap(st: &[char], prefix: &str) -> (r: Option<Vec<char>>)
    ensures
        r matches Some(v) ==> has_prefix(st@, prefix@.push('<')) && inner_template_spec(
            st@,
            prefix@,
        ) == Some(v@),
        r is None ==> !(has_prefix(st@, prefix@.push('<')) && inner_template_spec(
            st@,
            prefix@,
        ) is Some),
{
    let mut p = chars_of(prefix);
    p.push('<');
    assert(p@ =~= prefix@.push('<'));
    if !starts_with(st, &p) {
        return None;
    }
    let pv = chars_of(prefix);
    let r = inner_template_chars(st, &pv);
    match r {
        Some(v) => {
            assert(r.deep_view() == Some(v.deep_view()));
            assert(v.deep_view() =~= v@);
            Some(v)
        },
        None => None,
    }
}

proof fn lemma_prefix_literal(p: Seq<char>)
    ensures
        p == "std::optional"@ ==> p.push('<') == "std::optional<"@,
        p == "std::vector"@ ==> p.push('<') == "std::vector<"@,
        p == "std::shared_ptr"@ ==> p.push('<') == "std::shared_ptr<"@,
        p == "std::unique_ptr"@ ==> p.push('<') == "std::unique_ptr<"@,
        p == "Utilities::StrongTypedef"@ ==> p.push('<') == "Utilities::StrongTypedef<"@,
        p == "std::map"@ ==> p.push('<') == "std::map<"@,
        p == "std::unordered_map"@ ==> p.push('<') == "std::unordered_map<"@,
{
    reveal_strlit("std::optional");
    reveal_strlit("std::optional<");
    reveal_strlit("std::vector");
    reveal_strlit("std::vector<");
    reveal_strlit("std::shared_ptr");
    reveal_strlit("std::shared_ptr<");
    reveal_strlit("std::unique_ptr");
    reveal_strlit("std::unique_ptr<");
    reveal_strlit("Utilities::StrongTypedef");
    reveal_strlit("Utilities::StrongTypedef<");
    reveal_strlit("std::map");
    reveal_strlit("std::map<");
    reveal_strlit("std::unordered_map");
    reveal_strlit("std::unordered_map<");
    assert(p == "std::optional"@ ==> p.push('<') =~= "std::optional<"@);
    assert(p == "std::vector"@ ==> p.push('<') =~= "std::vector<"@);
    assert(p == "std::shared_ptr"@ ==> p.push('<') =~= "std::shared_ptr<"@);
    assert(p == "std::unique_ptr"@ ==> p.push('<') =~= "std::unique_ptr<"@);
    assert(p == "Utilities::StrongTypedef"@ ==> p.push('<') =~= "Utilities::StrongTypedef<"@);
    assert(p == "std::map"@ ==> p.push('<') =~= "std::map<"@);
    assert(p == "std::unordered_map"@ ==> p.push('<') =~= "std::unordered_map<"@);
}

/// Takes a raw type name apart: its normalised spelling, the element name
/// under optional/vector/pointer wrappers, map key and value, and the
/// polymorphic base.
pub fn decompose_type(raw_type: &str) -> (r: DecomposedType)
    ensures
        r@ == decompose_spec(raw_type@),
{
    let raw = chars_of(raw_type);
    let full = normalize_chars(&raw);
    let pb = polymorphic_base_chars(&full);
    let mut optional = false;
    let mut array = false;
    let mut current = slice_of(&full, 0, full.len());
    assert(current@ =~= full@);
    let mut step: usize = 0;
    while step < 6
        invariant
            step <= 6,
            full@ == normalize_spec(raw_type@),
            pb.deep_view() == polymorphic_base_spec(full@),
            peel(current@, (6 - step) as nat, optional, array) == peel(full@, 6, false, false),
        ensures
            peel(full@, 6, false, false) == (Peeled::Done { current: current@, optional, array }),
        decreases 6 - step,
    {
        let st = strip_chars(&current);
        proof {
            lemma_prefix_literal("std::optional"@);
            lemma_prefix_literal("std::vector"@);
            lemma_prefix_literal("std::shared_ptr"@);
            lemma_prefix_literal("std::unique_ptr"@);
            lemma_prefix_literal("Utilities::StrongTypedef"@);
            lemma_prefix_literal("std::map"@);
            lemma_prefix_literal("std::unordered_map"@);
        }
        if let Some(inner) = try_unwrap(&st, "std::optional") {
            optional = true;
            current = inner;
            step = step + 1;
            continue;
        }
        if let Some(inner) = try_unwrap(&st, "std::vector") {
            array = true;
            current = inner;
            step = step + 1;
            continue;
        }
        if let Some(inner) = try_unwrap(&st, "std::shared_ptr") {
            current = inner;
            step = step + 1;
            continue;
        }
        if let Some(inner) = try_unwrap(&st, "std::unique_ptr") {
            current = inner;
            step = step + 1;
            continue;
        }
        if let Some(inner) = try_unwrap(&st, "Utilities::StrongTypedef") {
            current = inner;
            step = step + 1;
            continue;
        }
        let is_map = starts_with_str(&st, "std::map<");
        if is_map || starts_with_str(&st, "std::unordered_map<") {
            let pfx = if is_map {
                chars_of("std::map")
            } else {
                chars_of("std::unordered_map")
            };
            let inner = inner_template_chars(&st, &pfx);
            if let Some(inner) = inner {
                assert(inner.deep_view() =~= inner@);
                let args = template_args_chars(&inner);
                if args.len() >= 2 {
                    assert(args.deep_view()[0] == args[0]@);
                    assert(args.deep_view()[1] == args[1]@);
                    let key = normalize_chars(&args[0]);
                    let value = normalize_chars(&args[1]);
                    let pbs = opt_string_of(&pb);
                    return DecomposedType {
                        full: string_of(&full),
                        name: None,
                        optional,
                        array,
                        map: true,
                        map_key: Some(string_of(&key)),
                        map_value: Some(string_of(&value)),
                        polymorphic: pb.is_some(),
                        polymorphic_base: pbs,
                    };
                }
            }
        }
        break;
    }
    let name = match &pb {
        Some(b) => {
            assert(b.deep_view() =~= b@);
            Some(string_of(b))
        },
        None => {
            let n = normalize_chars(&current);
            if n.len() == 0 {
                None
            } else {
                Some(string_of(&n))
            }
        },
    };
    let pbs = opt_string_of(&pb);
    DecomposedType {
        full: string_of(&full),
        name,
        optional,
        array,
        map: false,
        map_key: None,
        map_value: None,
        polymorphic: pb.is_some(),
        polymorphic_base: pbs,
    }
}

} // verus!
