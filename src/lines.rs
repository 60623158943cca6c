use vstd::prelude::*;

use crate::elements::Keyword;
use crate::scan::{find_byte, is_space, is_space_byte, skip_spaces, trim_end};
use crate::span::Span;

verus! {

/// `s[a..b]` holds no `stop` byte and no space.
pub open spec fn plain_word(s: Seq<u8>, a: int, b: int, stop: u8) -> bool {
    forall|j: int| a <= j < b ==> s[j] != stop && !is_space(s[j])
}

/// `s[from..to]` is `#+KEY: VALUE`: a nonempty key without spaces or colons,
/// ended by the colon at `c`.
pub open spec fn keyword_line(s: Seq<u8>, from: int, to: int, c: int) -> bool {
    &&& 0 <= from && from + 2 < c < to <= s.len()
    &&& s[from] == 0x23u8 && s[from + 1] == 0x2bu8
    &&& s[c] == 0x3au8
    &&& plain_word(s, from + 2, c, 0x3au8)
}

fn plain_word_exec(s: &[u8], a: usize, b: usize, stop: u8) -> (r: bool)
    requires
        a <= b <= s@.len(),
    ensures
        r == plain_word(s@, a as int, b as int, stop),
{
    let mut i = a;
    while i < b
        invariant
            a <= i <= b <= s@.len(),
            plain_word(s@, a as int, i as int, stop),
        decreases b - i,
    {
        if s[i] == stop || is_space_byte(s[i]) {
            return false;
        }
        i = i + 1;
    }
    true
}

/// `v` is `s[a..b]` without its leading and trailing spaces.
pub open spec fn trimmed(s: Seq<u8>, a: int, b: int, v: Span) -> bool {
    &&& a <= v.start && v.end() <= b
    &&& forall|j: int| a <= j < v.start ==> is_space(s[j])
    &&& (v.start < b ==> !is_space(s[v.start as int]))
    &&& forall|j: int| v.end() <= j < b ==> is_space(s[j])
    &&& (v.end() > v.start ==> !is_space(s[v.end() - 1]))
}

/// `k` is the keyword of the line `s[from..to]`: its key runs from after
/// `#+` to the first colon, its value is the rest of the line, trimmed.
pub open spec fn keyword_of(s: Seq<u8>, from: int, to: int, k: Keyword) -> bool {
    &&& k.key.start == from + 2
    &&& keyword_line(s, from, to, k.key.end())
    &&& trimmed(s, k.key.end() + 1, to, k.value)
}

/// Recognizes a keyword line `#+KEY: VALUE` in `s[from..to]`; the value is
/// the rest of the line without surrounding spaces.
pub fn parse_keyword(s: &[u8], from: usize, to: usize) -> (r: Option<Keyword>)
    requires
        from <= to <= s@.len(),
    ensures
        r is Some <==> exists|c: int| keyword_line(s@, from as int, to as int, c),
        r matches Some(k) ==> keyword_of(s@, from as int, to as int, k) && k.key.end() < k.value.start,
{
    if to - from < 3 || s[from] != 0x23 || s[from + 1] != 0x2b {
        return None;
    }
    let c = find_byte(s, 0x3a, from + 2, to);
    if c == to || c == from + 2 || !plain_word_exec(s, from + 2, c, 0x3a) {
        proof {
            if exists|d: int| keyword_line(s@, from as int, to as int, d) {
                let d = choose|d: int| keyword_line(s@, from as int, to as int, d);
                if d < c {
                    assert(s@[d] != 0x3au8);
                } else if d > c && c < to {
                    assert(s@[c as int] != 0x3au8);
                }
            }
        }
        return None;
    }
    assert(keyword_line(s@, from as int, to as int, c as int));
    let v = skip_spaces(s, c + 1, to);
    let ve = trim_end(s, v, to);
    Some(Keyword { key: Span::range(from + 2, c), value: Span::range(v, ve) })
}

/// `s[from..to]` is `[fn:LABEL]...` with a nonempty label of no spaces,
/// ended by the bracket at `c`.
pub open spec fn fn_def_line(s: Seq<u8>, from: int, to: int, c: int) -> bool {
    &&& 0 <= from && from + 4 < c < to <= s.len()
    &&& s[from] == 0x5bu8 && s[from + 1] == 0x66u8 && s[from + 2] == 0x6eu8 && s[from + 3] == 0x3au8
    &&& s[c] == 0x5du8
    &&& plain_word(s, from + 4, c, 0x5du8)
}

/// Recognizes the label of a footnote definition `[fn:LABEL] text`.
pub fn parse_fn_def(s: &[u8], from: usize, to: usize) -> (r: Option<Span>)
    requires
        from <= to <= s@.len(),
    ensures
        r is Some <==> exists|c: int| fn_def_line(s@, from as int, to as int, c),
        r matches Some(l) ==> l.start == from + 4 && fn_def_line(s@, from as int, to as int, l.end()),
{
    if to - from < 6 || s[from] != 0x5b || s[from + 1] != 0x66 || s[from + 2] != 0x6e || s[from
        + 3] != 0x3a {
        return None;
    }
    let c = find_byte(s, 0x5d, from + 4, to);
    if c == to || c == from + 4 || !plain_word_exec(s, from + 4, c, 0x5d) {
        proof {
            if exists|d: int| fn_def_line(s@, from as int, to as int, d) {
                let d = choose|d: int| fn_def_line(s@, from as int, to as int, d);
                if d < c {
                    assert(s@[d] != 0x5du8);
                } else if d > c && c < to {
                    assert(s@[c as int] != 0x5du8);
                }
            }
        }
        return None;
    }
    assert(fn_def_line(s@, from as int, to as int, c as int));
    Some(Span::range(from + 4, c))
}

/// `s[from..to]` is a horizontal rule: five or more dashes, then only spaces.
pub open spec fn rule_line(s: Seq<u8>, from: int, to: int) -> bool {
    exists|d: int| #[trigger] dashes_then_spaces(s, from, to, d)
}

/// `s[from..d]` are at least five dashes and `s[d..to]` are spaces.
pub open spec fn dashes_then_spaces(s: Seq<u8>, from: int, to: int, d: int) -> bool {
    &&& from + 5 <= d <= to
    &&& forall|j: int| from <= j < d ==> s[j] == 0x2du8
    &&& forall|j: int| d <= j < to ==> is_space(#[trigger] s[j])
}

pub fn is_rule(s: &[u8], from: usize, to: usize) -> (r: bool)
    requires
        from <= to <= s@.len(),
    ensures
        r == rule_line(s@, from as int, to as int),
{
    let mut d = from;
    while d < to && s[d] == 0x2d
        invariant
            from <= d <= to <= s@.len(),
            forall|j: int| from <= j < d ==> s@[j] == 0x2du8,
        decreases to - d,
    {
        d = d + 1;
    }
    let e = skip_spaces(s, d, to);
    let r = d - from >= 5 && e == to;
    proof {
        if r {
            assert(dashes_then_spaces(s@, from as int, to as int, d as int));
        }
        if rule_line(s@, from as int, to as int) && !r {
            let x = choose|x: int| #[trigger] dashes_then_spaces(s@, from as int, to as int, x);
            if x < d {
                assert(is_space(s@[x]));
            } else if x > d {
                assert(s@[d as int] == 0x2du8);
            } else if e < to {
                assert(is_space(s@[e as int]));
            }
        }
    }
    r
}

} // verus!

verus! {

/// `b` with ASCII upper case letters made lower case.
pub open spec fn lower(b: u8) -> u8 {
    if 0x41u8 <= b && b <= 0x5au8 {
        (b + 0x20) as u8
    } else {
        b
    }
}

fn lower_byte(b: u8) -> (r: u8)
    ensures
        r == lower(b),
{
    if 0x41 <= b && b <= 0x5a {
        b + 0x20
    } else {
        b
    }
}

/// `s[a..a + len]` and `s[c..c + len]` agree, ignoring ASCII case.
pub open spec fn same_ignoring_case(s: Seq<u8>, a: int, c: int, len: int) -> bool {
    forall|j: int| 0 <= j < len ==> lower(#[trigger] s[a + j]) == lower(s[c + j])
}

fn same_ignoring_case_exec(s: &[u8], a: usize, c: usize, len: usize) -> (r: bool)
    requires
        a + len <= s@.len(),
        c + len <= s@.len(),
    ensures
        r == same_ignoring_case(s@, a as int, c as int, len as int),
{
    let n = s.len();
    let mut j: usize = 0;
    while j < len
        invariant
            n == s@.len(),
            j <= len,
            a + len <= s@.len(),
            c + len <= s@.len(),
            same_ignoring_case(s@, a as int, c as int, j as int),
        decreases len - j,
    {
        if lower_byte(s[a + j]) != lower_byte(s[c + j]) {
            return false;
        }
        j = j + 1;
    }
    true
}

/// `s[a..]` starts with `w`, ignoring ASCII case.
pub open spec fn starts_ignoring_case(s: Seq<u8>, a: int, b: int, w: Seq<u8>) -> bool {
    &&& a + w.len() <= b
    &&& forall|j: int| 0 <= j < w.len() ==> lower(#[trigger] s[a + j]) == lower(w[j])
}

pub fn starts_ignoring_case_exec(s: &[u8], a: usize, b: usize, w: &Vec<u8>) -> (r: bool)
    requires
        a <= b <= s@.len(),
    ensures
        r == starts_ignoring_case(s@, a as int, b as int, w@),
{
    if b - a < w.len() {
        return false;
    }
    let mut j: usize = 0;
    while j < w.len()
        invariant
            j <= w@.len(),
            a + w@.len() <= b <= s@.len(),
            forall|k: int| 0 <= k < j ==> lower(#[trigger] s@[a + k]) == lower(w@[k]),
        decreases w@.len() - j,
    {
        if lower_byte(s[a + j]) != lower_byte(w[j]) {
            assert(lower(s@[a + j]) != lower(w@[j as int]));
            return false;
        }
        j = j + 1;
    }
    true
}

/// `#+BEGIN_`
pub open spec fn begin_marker() -> Seq<u8> {
    seq![0x23u8, 0x2bu8, 0x42u8, 0x45u8, 0x47u8, 0x49u8, 0x4eu8, 0x5fu8]
}

/// `#+END_`
pub open spec fn end_marker() -> Seq<u8> {
    seq![0x23u8, 0x2bu8, 0x45u8, 0x4eu8, 0x44u8, 0x5fu8]
}

/// Recognizes `#+BEGIN_NAME ARGS` in `s[from..to]`: the name runs to the first
/// space, the arguments are the rest without surrounding spaces.
pub fn block_begin(s: &[u8], from: usize, to: usize) -> (r: Option<(Span, Span)>)
    requires
        from <= to <= s@.len(),
    ensures
        r is Some <==> starts_ignoring_case(s@, from as int, to as int, begin_marker()) && from + 8
            < to && s@[from + 8] != 0x20u8,
        r matches Some((name, args)) ==> {
            &&& name.start == from + 8 && name.len > 0 && name.end() <= args.start
            &&& args.end() <= to
            &&& forall|j: int| name.start <= j < name.end() ==> s@[j] != 0x20u8
        },
{
    let marker: Vec<u8> = vec![0x23u8, 0x2b, 0x42, 0x45, 0x47, 0x49, 0x4e, 0x5f];
    assert(marker@ =~= begin_marker());
    if !starts_ignoring_case_exec(s, from, to, &marker) {
        return None;
    }
    let ne = find_byte(s, 0x20, from + 8, to);
    if ne == from + 8 {
        return None;
    }
    let a = skip_spaces(s, ne, to);
    let ae = trim_end(s, a, to);
    Some((Span::range(from + 8, ne), Span::range(a, ae)))
}

/// `s[from..to]` is `#+END_NAME` for the block name `name`, ignoring ASCII case.
pub open spec fn block_end_line(s: Seq<u8>, from: int, to: int, name: Span) -> bool {
    &&& starts_ignoring_case(s, from, to, end_marker())
    &&& to - from - 6 == name.len
    &&& same_ignoring_case(s, from + 6, name.start as int, name.len as int)
}

pub fn is_block_end(s: &[u8], from: usize, to: usize, name: Span) -> (r: bool)
    requires
        from <= to <= s@.len(),
        name.within(s@.len()),
    ensures
        r == block_end_line(s@, from as int, to as int, name),
{
    let marker: Vec<u8> = vec![0x23u8, 0x2b, 0x45, 0x4e, 0x44, 0x5f];
    assert(marker@ =~= end_marker());
    if !starts_ignoring_case_exec(s, from, to, &marker) {
        return false;
    }
    if to - from - 6 != name.len {
        return false;
    }
    same_ignoring_case_exec(s, from + 6, name.start, name.len)
}

/// `s[from..to]` starts with a list bullet ending at `e`: `-`, `+` or `*`, or
/// digits followed by `.` or `)`; then a space or the end of the line.
pub open spec fn bullet_at(s: Seq<u8>, from: int, to: int, e: int) -> bool {
    &&& from < e <= to
    &&& (e == to || s[e] == 0x20u8)
    &&& ((e == from + 1 && (s[from] == 0x2du8 || s[from] == 0x2bu8 || s[from] == 0x2au8)) || (
    from + 2 <= e && (s[e - 1] == 0x2eu8 || s[e - 1] == 0x29u8) && forall|j: int|
        from <= j < e - 1 ==> is_digit(#[trigger] s[j])))
}

pub open spec fn is_digit(b: u8) -> bool {
    0x30u8 <= b && b <= 0x39u8
}

/// Recognizes a list bullet at the start of `s[from..to]`; returns where it
/// ends and whether it is numbered.
pub fn parse_bullet(s: &[u8], from: usize, to: usize) -> (r: Option<(usize, bool)>)
    requires
        from <= to <= s@.len(),
    ensures
        r is Some <==> exists|e: int| bullet_at(s@, from as int, to as int, e),
        r matches Some((e, ordered)) ==> bullet_at(s@, from as int, to as int, e as int) && ordered
            == is_digit(s@[from as int]),
{
    if from == to {
        return None;
    }
    let c = s[from];
    if c == 0x2d || c == 0x2b || c == 0x2a {
        if from + 1 == to || s[from + 1] == 0x20 {
            assert(bullet_at(s@, from as int, to as int, from + 1));
            return Some((from + 1, false));
        }
        proof {
            if exists|e: int| bullet_at(s@, from as int, to as int, e) {
                let e = choose|e: int| bullet_at(s@, from as int, to as int, e);
                assert(e != from + 1);
                assert(is_digit(s@[from as int]));
            }
        }
        return None;
    }
    let mut d = from;
    while d < to && 0x30 <= s[d] && s[d] <= 0x39
        invariant
            from <= d <= to <= s@.len(),
            forall|j: int| from <= j < d ==> is_digit(#[trigger] s@[j]),
        decreases to - d,
    {
        d = d + 1;
    }
    if d == from || d == to || (s[d] != 0x2e && s[d] != 0x29) {
        proof {
            if exists|e: int| bullet_at(s@, from as int, to as int, e) {
                let e = choose|e: int| bullet_at(s@, from as int, to as int, e);
                if e - 1 > d {
                    assert(is_digit(s@[d as int]));
                } else if e - 1 < d {
                    assert(is_digit(s@[e - 1]));
                }
            }
        }
        return None;
    }
    let e = d + 1;
    if e == to || s[e] == 0x20 {
        assert(bullet_at(s@, from as int, to as int, e as int));
        Some((e, true))
    } else {
        proof {
            if exists|e2: int| bullet_at(s@, from as int, to as int, e2) {
                let e2 = choose|e2: int| bullet_at(s@, from as int, to as int, e2);
                if e2 - 1 > d {
                    assert(is_digit(s@[d as int]));
                } else if e2 - 1 < d {
                    assert(is_digit(s@[e2 - 1]));
                }
            }
        }
        None
    }
}

} // verus!

verus! {

/// A byte of a drawer name: a letter, a digit, `-` or `_`.
pub open spec fn is_name_byte(b: u8) -> bool {
    (0x41u8 <= b && b <= 0x5au8) || (0x61u8 <= b && b <= 0x7au8) || is_digit(b) || b == 0x2du8
        || b == 0x5fu8
}

fn is_name_byte_exec(b: u8) -> (r: bool)
    ensures
        r == is_name_byte(b),
{
    (0x41 <= b && b <= 0x5a) || (0x61 <= b && b <= 0x7a) || (0x30 <= b && b <= 0x39) || b == 0x2d
        || b == 0x5f
}

/// Recognizes a drawer's first line `:NAME:`, the whole of `s[from..to]`.
pub fn drawer_begin(s: &[u8], from: usize, to: usize) -> (r: Option<Span>)
    requires
        from <= to <= s@.len(),
    ensures
        r is Some <==> (from + 3 <= to && s@[from as int] == 0x3au8 && s@[to - 1] == 0x3au8
            && forall|j: int| from < j < to - 1 ==> is_name_byte(#[trigger] s@[j])),
        r matches Some(n) ==> n.start == from + 1 && n.end() == to - 1,
{
    if to - from < 3 || s[from] != 0x3a || s[to - 1] != 0x3a {
        return None;
    }
    let mut j = from + 1;
    while j < to - 1
        invariant
            from < j <= to - 1,
            to <= s@.len(),
            forall|k: int| from < k < j ==> is_name_byte(#[trigger] s@[k]),
        decreases to - 1 - j,
    {
        if !is_name_byte_exec(s[j]) {
            return None;
        }
        j = j + 1;
    }
    Some(Span::range(from + 1, to - 1))
}

/// `:END:`
pub open spec fn drawer_end_marker() -> Seq<u8> {
    seq![0x3au8, 0x45u8, 0x4eu8, 0x44u8, 0x3au8]
}

/// `#+BEGIN:`
pub open spec fn dyn_begin_marker() -> Seq<u8> {
    seq![0x23u8, 0x2bu8, 0x42u8, 0x45u8, 0x47u8, 0x49u8, 0x4eu8, 0x3au8]
}

/// `#+END:`
pub open spec fn dyn_end_marker() -> Seq<u8> {
    seq![0x23u8, 0x2bu8, 0x45u8, 0x4eu8, 0x44u8, 0x3au8]
}

/// `s[from..to]` is exactly `:END:` (for `drawer`) or `#+END:`, ignoring case.
pub fn is_container_end(s: &[u8], from: usize, to: usize, drawer: bool) -> (r: bool)
    requires
        from <= to <= s@.len(),
    ensures
        r == (starts_ignoring_case(
            s@,
            from as int,
            to as int,
            if drawer {
                drawer_end_marker()
            } else {
                dyn_end_marker()
            },
        ) && to - from == if drawer {
            5int
        } else {
            6int
        }),
{
    let marker: Vec<u8> = if drawer {
        vec![0x3au8, 0x45, 0x4e, 0x44, 0x3a]
    } else {
        vec![0x23u8, 0x2b, 0x45, 0x4e, 0x44, 0x3a]
    };
    assert(marker@ =~= if drawer {
        drawer_end_marker()
    } else {
        dyn_end_marker()
    });
    to - from == marker.len() && starts_ignoring_case_exec(s, from, to, &marker)
}

/// Recognizes `#+BEGIN: NAME ARGS` in `s[from..to]`.
pub fn dyn_begin(s: &[u8], from: usize, to: usize) -> (r: Option<(Span, Span)>)
    requires
        from <= to <= s@.len(),
    ensures
        r is Some <==> starts_ignoring_case(s@, from as int, to as int, dyn_begin_marker()) && exists|
            j: int,
        | from + 8 <= j < to && !is_space(#[trigger] s@[j]),
        r matches Some((name, args)) ==> {
            &&& from + 8 <= name.start && name.len > 0 && name.end() <= args.start
            &&& args.end() <= to
            &&& forall|j: int| name.start <= j < name.end() ==> s@[j] != 0x20u8
        },
{
    let marker: Vec<u8> = vec![0x23u8, 0x2b, 0x42, 0x45, 0x47, 0x49, 0x4e, 0x3a];
    assert(marker@ =~= dyn_begin_marker());
    if !starts_ignoring_case_exec(s, from, to, &marker) {
        return None;
    }
    let n = skip_spaces(s, from + 8, to);
    let ne = find_byte(s, 0x20, n, to);
    if ne == n {
        proof {
            assert forall|j: int| from + 8 <= j < to implies is_space(#[trigger] s@[j]) by {
                assert(n == to);
            }
        }
        return None;
    }
    assert(!is_space(s@[n as int]));
    let a = skip_spaces(s, ne, to);
    let ae = trim_end(s, a, to);
    Some((Span::range(n, ne), Span::range(a, ae)))
}

} // verus!
