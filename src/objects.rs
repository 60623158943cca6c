use vstd::prelude::*;
use vstd::string::StringSliceAdditionalSpecFns;

use crate::elements::{Clock, Element, Macros, Planning, Timestamp};
use crate::lines::is_digit;
use crate::scan::{
    balanced_span, bytes_eq, depth, find_byte, is_space, is_space_byte, skip_sp, skip_spaces, trim_end,
};
use crate::span::Span;

verus! {

/// The value of the decimal digits `s[from..to]`.
pub open spec fn decimal(s: Seq<u8>, from: int, to: int) -> int
    decreases to - from,
{
    if to <= from {
        0
    } else {
        decimal(s, from, to - 1) * 10 + (s[to - 1] - 0x30u8)
    }
}

pub open spec fn all_digits(s: Seq<u8>, from: int, to: int) -> bool {
    forall|j: int| from <= j < to ==> is_digit(#[trigger] s[j])
}

/// Reads the `len` digits at `s[from..]`, at most four.
fn read_number(s: &[u8], from: usize, len: usize, to: usize) -> (r: Option<u16>)
    requires
        from <= to <= s@.len(),
        len <= 4,
    ensures
        r is Some <==> from + len <= to && all_digits(s@, from as int, from + len),
        r matches Some(v) ==> v == decimal(s@, from as int, from + len) && (len <= 2 ==> v < 100),
{
    if to - from < len {
        return None;
    }
    let mut v: u16 = 0;
    let mut j: usize = 0;
    while j < len
        invariant
            j <= len <= 4,
            from + len <= to <= s@.len(),
            all_digits(s@, from as int, from + j),
            v == decimal(s@, from as int, from + j),
            v < 10000 && (j <= 3 ==> v < 1000) && (j <= 2 ==> v < 100) && (j <= 1 ==> v < 10)
                && (j == 0 ==> v == 0),
        decreases len - j,
    {
        let c = s[from + j];
        if c < 0x30 || c > 0x39 {
            assert(!is_digit(s@[from + j]));
            return None;
        }
        v = v * 10 + (c - 0x30) as u16;
        j = j + 1;
    }
    Some(v)
}

/// `s[from..to]` is ASCII letters only.
pub open spec fn all_letters(s: Seq<u8>, from: int, to: int) -> bool {
    forall|j: int|
        from <= j < to ==> (0x41u8 <= #[trigger] s[j] <= 0x5au8 || 0x61u8 <= s[j] <= 0x7au8)
}

pub open spec fn is_letter(b: u8) -> bool {
    (0x41u8 <= b && b <= 0x5au8) || (0x61u8 <= b && b <= 0x7au8)
}

/// First position at or after `a` in `s[a..b]` that is not an ASCII letter.
pub open spec fn letters_end(s: Seq<u8>, a: int, b: int) -> int
    decreases b - a,
{
    if a >= b || !is_letter(s[a]) {
        a
    } else {
        letters_end(s, a + 1, b)
    }
}

/// Where a timestamp starting at `s[i]` stands after its date and an
/// optional day name.
pub open spec fn ts_after_day(s: Seq<u8>, i: int, to: int) -> int {
    let p = i + 11;
    if p + 1 < to && s[p] == 0x20u8 {
        let q = letters_end(s, p + 1, to);
        if q > p + 1 && q < to {
            q
        } else {
            p
        }
    } else {
        p
    }
}

/// Where a timestamp stands after an optional time ` HH:MM` at `p`.
pub open spec fn ts_after_time(s: Seq<u8>, p: int, to: int) -> int {
    if p < to && s[p] == 0x20u8 && to - p >= 6 && s[p + 3] == 0x3au8 && all_digits(s, p + 1, p + 3)
        && all_digits(s, p + 4, p + 6) {
        p + 6
    } else {
        p
    }
}

/// `s[i..to]` starts with a timestamp: `<` or `[`, `YYYY-MM-DD`, an optional
/// day name, an optional time, and the matching `>` or `]`.
pub open spec fn timestamp_shape(s: Seq<u8>, i: int, to: int) -> bool {
    let close = if s[i] == 0x3cu8 {
        0x3eu8
    } else {
        0x5du8
    };
    let p = ts_after_time(s, ts_after_day(s, i, to), to);
    &&& s[i] == 0x3cu8 || s[i] == 0x5bu8
    &&& i + 12 <= to
    &&& all_digits(s, i + 1, i + 5) && s[i + 5] == 0x2du8
    &&& all_digits(s, i + 6, i + 8) && s[i + 8] == 0x2du8
    &&& all_digits(s, i + 9, i + 11)
    &&& p < to && s[p] == close
}

/// Recognizes a timestamp `<YYYY-MM-DD>` starting at `s[i]`, optionally with
/// a day name and a time `HH:MM`; `[`...`]` makes it inactive. Returns it
/// with the position just past it.
pub fn timestamp_at(s: &[u8], i: usize, to: usize) -> (r: Option<(Timestamp, usize)>)
    requires
        i < to <= s@.len(),
    ensures
        r is Some <==> timestamp_shape(s@, i as int, to as int),
        r matches Some((t, end)) ==> {
            &&& i + 12 <= end <= to
            &&& end == ts_after_time(s@, ts_after_day(s@, i as int, to as int), to as int) + 1
            &&& t.raw == (Span { start: i, len: (end - i) as usize })
            &&& t.active == (s@[i as int] == 0x3cu8)
            &&& t.active ==> s@[end - 1] == 0x3eu8
            &&& !t.active ==> s@[i as int] == 0x5bu8 && s@[end - 1] == 0x5du8
            &&& t.year == decimal(s@, i + 1, i + 5)
            &&& s@[i + 5] == 0x2du8 && t.month == decimal(s@, i + 6, i + 8)
            &&& s@[i + 8] == 0x2du8 && t.day == decimal(s@, i + 9, i + 11)
            &&& t.hour is Some == t.minute is Some
            &&& t.dayname matches Some(d) ==> i + 11 < d.start && d.end() < end && all_letters(
                s@,
                d.start as int,
                d.end(),
            )
        },
{
    let open = s[i];
    if open != 0x3c && open != 0x5b {
        return None;
    }
    let close: u8 = if open == 0x3c {
        0x3e
    } else {
        0x5d
    };
    let year = read_number(s, i + 1, 4, to);
    if year.is_none() || to - i < 12 || s[i + 5] != 0x2d || s[i + 8] != 0x2d {
        return None;
    }
    let month = read_number(s, i + 6, 2, to);
    let day = read_number(s, i + 9, 2, to);
    if month.is_none() || day.is_none() {
        return None;
    }
    let mut p = i + 11;
    let mut dayname: Option<Span> = None;
    if p + 1 < to && s[p] == 0x20 {
        let mut q = p + 1;
        while q < to && ((0x41 <= s[q] && s[q] <= 0x5a) || (0x61 <= s[q] && s[q] <= 0x7a))
            invariant
                p + 1 <= q <= to <= s@.len(),
                all_letters(s@, p + 1, q as int),
                letters_end(s@, p + 1, to as int) == letters_end(s@, q as int, to as int),
            decreases to - q,
        {
            q = q + 1;
        }
        if q > p + 1 && q < to {
            dayname = Some(Span::range(p + 1, q));
            p = q;
        }
    }
    let mut hour: Option<u8> = None;
    let mut minute: Option<u8> = None;
    if p < to && s[p] == 0x20 && to - p >= 6 && s[p + 3] == 0x3a {
        let h = read_number(s, p + 1, 2, to);
        let m = read_number(s, p + 4, 2, to);
        if h.is_some() && m.is_some() {
            hour = Some(h.unwrap() as u8);
            minute = Some(m.unwrap() as u8);
            p = p + 6;
        }
    }
    if p >= to || s[p] != close {
        return None;
    }
    let t = Timestamp {
        active: open == 0x3c,
        year: year.unwrap(),
        month: month.unwrap() as u8,
        day: day.unwrap() as u8,
        dayname,
        hour,
        minute,
        raw: Span::range(i, p + 1),
    };
    Some((t, p + 1))
}

/// `s[a..e]` is a nonempty target without `>`, closed by `>>` at `e`.
pub open spec fn target_close(s: Seq<u8>, a: int, to: int, e: int) -> bool {
    &&& a < e && e + 2 <= to
    &&& forall|j: int| a <= j < e ==> s[j] != 0x3eu8
    &&& s[e] == 0x3eu8 && s[e + 1] == 0x3eu8
}

/// Recognizes a target `<<target>>` starting at `s[i]`.
pub fn target_at(s: &[u8], i: usize, to: usize) -> (r: Option<(Span, usize)>)
    requires
        i < to <= s@.len(),
    ensures
        r is Some <==> (i + 1 < to && s@[i as int] == 0x3cu8 && s@[i + 1] == 0x3cu8 && exists|e: int|
            #[trigger] target_close(s@, i + 2, to as int, e)),
        r matches Some((t, end)) ==> t.start == i + 2 && target_close(s@, i + 2, to as int, t.end())
            && end == t.end() + 2,
{
    if to - i < 5 || s[i] != 0x3c || s[i + 1] != 0x3c {
        proof {
            if to - i < 5 && exists|e: int| #[trigger] target_close(s@, i + 2, to as int, e) {
                let e = choose|e: int| #[trigger] target_close(s@, i + 2, to as int, e);
                assert(false);
            }
        }
        return None;
    }
    let e = find_byte(s, 0x3e, i + 2, to);
    if e == i + 2 || e >= to - 1 || s[e + 1] != 0x3e {
        proof {
            if exists|e2: int| #[trigger] target_close(s@, i + 2, to as int, e2) {
                let e2 = choose|e2: int| #[trigger] target_close(s@, i + 2, to as int, e2);
                if e2 > e && e < to {
                    assert(s@[e as int] == 0x3eu8);
                }
            }
        }
        return None;
    }
    assert(target_close(s@, i + 2, to as int, e as int));
    Some((Span::range(i + 2, e), e + 2))
}

/// Recognizes a radio target `<<<target>>>` starting at `s[i]`.
pub fn radio_target_at(s: &[u8], i: usize, to: usize) -> (r: Option<(Span, usize)>)
    requires
        i < to <= s@.len(),
    ensures
        r is Some <==> (i + 6 < to && s@[i as int] == 0x3cu8 && s@[i + 1] == 0x3cu8 && s@[i + 2]
            == 0x3cu8 && exists|e: int| #[trigger] radio_close(s@, i + 3, to as int, e)),
        r matches Some((t, end)) ==> t.start == i + 3 && radio_close(s@, i + 3, to as int, t.end())
            && end == t.end() + 3,
{
    if to - i < 7 || s[i] != 0x3c || s[i + 1] != 0x3c || s[i + 2] != 0x3c {
        return None;
    }
    let e = find_byte(s, 0x3e, i + 3, to);
    if e == i + 3 || e >= to - 2 || s[e + 1] != 0x3e || s[e + 2] != 0x3e {
        proof {
            if exists|e2: int| #[trigger] radio_close(s@, i + 3, to as int, e2) {
                let e2 = choose|e2: int| #[trigger] radio_close(s@, i + 3, to as int, e2);
                if e2 > e && e < to {
                    assert(s@[e as int] == 0x3eu8);
                }
            }
        }
        return None;
    }
    assert(radio_close(s@, i + 3, to as int, e as int));
    Some((Span::range(i + 3, e), e + 3))
}

/// `s[a..e]` is a nonempty target without `>`, closed by `>>>` at `e`.
pub open spec fn radio_close(s: Seq<u8>, a: int, to: int, e: int) -> bool {
    &&& a < e && e + 3 <= to
    &&& forall|j: int| a <= j < e ==> s[j] != 0x3eu8
    &&& s[e] == 0x3eu8 && s[e + 1] == 0x3eu8 && s[e + 2] == 0x3eu8
}

/// `s[i + 3..c]` is a macro's name and arguments, ended by the first `}`,
/// which starts `}}}`; it does not start with `(`, and when it holds a `(`
/// it ends with `)`.
pub open spec fn macro_shape(s: Seq<u8>, i: int, to: int, c: int) -> bool {
    &&& i + 3 < c && c + 3 <= to
    &&& forall|k: int| i + 3 <= k < c ==> s[k] != 0x7du8
    &&& s[c] == 0x7du8 && s[c + 1] == 0x7du8 && s[c + 2] == 0x7du8
    &&& s[i + 3] != 0x28u8
    &&& (exists|k: int| i + 3 <= k < c && #[trigger] s[k] == 0x28u8) ==> s[c - 1] == 0x29u8
}

/// Recognizes a macro call `{{{name}}}` or `{{{name(args)}}}` starting at `s[i]`.
pub fn macro_at(s: &[u8], i: usize, to: usize) -> (r: Option<(Macros, usize)>)
    requires
        i < to <= s@.len(),
    ensures
        r is Some <==> (i + 2 < to && s@[i as int] == 0x7bu8 && s@[i + 1] == 0x7bu8 && s@[i + 2]
            == 0x7bu8 && exists|c: int| #[trigger] macro_shape(s@, i as int, to as int, c)),
        r matches Some((m, end)) ==> {
            &&& m.name.start == i + 3 && m.name.len > 0 && end == m.name.end() + 3 + match m.args {
                Some(a) => a.len + 2,
                None => 0,
            }
            &&& macro_shape(s@, i as int, to as int, end - 3)
            &&& m.args matches Some(a) ==> a.start == m.name.end() + 1 && s@[m.name.end()] == 0x28u8
        },
{
    if to - i < 7 || s[i] != 0x7b || s[i + 1] != 0x7b || s[i + 2] != 0x7b {
        return None;
    }
    let c = find_byte(s, 0x7d, i + 3, to);
    if c == i + 3 || c >= to - 2 || s[c + 1] != 0x7d || s[c + 2] != 0x7d {
        proof {
            if exists|c2: int| #[trigger] macro_shape(s@, i as int, to as int, c2) {
                let c2 = choose|c2: int| #[trigger] macro_shape(s@, i as int, to as int, c2);
                if c2 > c && c < to {
                    assert(s@[c as int] == 0x7du8);
                } else if c2 < c {
                    assert(s@[c2] == 0x7du8);
                }
            }
        }
        return None;
    }
    let p = find_byte(s, 0x28, i + 3, c);
    if p == i + 3 {
        return None;
    }
    if p == c {
        assert(macro_shape(s@, i as int, to as int, c as int));
        return Some((Macros { name: Span::range(i + 3, c), args: None }, c + 3));
    }
    if s[c - 1] != 0x29 {
        proof {
            if exists|c2: int| #[trigger] macro_shape(s@, i as int, to as int, c2) {
                let c2 = choose|c2: int| #[trigger] macro_shape(s@, i as int, to as int, c2);
                if c2 > c {
                    assert(s@[c as int] == 0x7du8);
                } else if c2 < c {
                    assert(s@[c2] == 0x7du8);
                } else {
                    assert(s@[p as int] == 0x28u8);
                }
            }
        }
        return None;
    }
    assert(s@[p as int] == 0x28u8);
    assert(macro_shape(s@, i as int, to as int, c as int));
    Some((Macros { name: Span::range(i + 3, p), args: Some(Span::range(p + 1, c - 1)) }, c + 3))
}

/// A radio target, target, timestamp, cookie, snippet or macro call starts
/// at `s[i]`.
pub open spec fn object_shape(s: Seq<u8>, i: int, to: int) -> bool {
    ||| (i + 6 < to && s[i] == 0x3cu8 && s[i + 1] == 0x3cu8 && s[i + 2] == 0x3cu8 && exists|e: int|
        #[trigger] radio_close(s, i + 3, to, e))
    ||| (i + 1 < to && s[i] == 0x3cu8 && s[i + 1] == 0x3cu8 && exists|e: int|
        #[trigger] target_close(s, i + 2, to, e))
    ||| timestamp_shape(s, i, to)
    ||| (exists|end: int| #[trigger] cookie_shape(s, i, to, end))
    ||| (i + 1 < to && s[i] == 0x40u8 && s[i + 1] == 0x40u8 && exists|c: int, j: int|
        #[trigger] snippet_shape(s, i, to, c, j))
    ||| (i + 2 < to && s[i] == 0x7bu8 && s[i + 1] == 0x7bu8 && s[i + 2] == 0x7bu8 && exists|c: int|
        #[trigger] macro_shape(s, i, to, c))
}

/// Recognizes a timestamp, target, macro call, cookie or snippet starting at `s[i]`.
pub fn object_at(s: &[u8], i: usize, to: usize) -> (r: Option<(Element, usize)>)
    requires
        i < to <= s@.len(),
    ensures
        r is Some <==> object_shape(s@, i as int, to as int),
        r matches Some((e, end)) ==> i < end <= to && !e.container() && e.within(to as nat),
{
    match radio_target_at(s, i, to) {
        Some((t, end)) => {
            return Some((Element::RadioTarget { target: t }, end));
        },
        None => {},
    }
    match target_at(s, i, to) {
        Some((t, end)) => {
            return Some((Element::Target { target: t }, end));
        },
        None => {},
    }
    match timestamp_at(s, i, to) {
        Some((t, end)) => {
            return Some((Element::Timestamp(t), end));
        },
        None => {},
    }
    match cookie_at(s, i, to) {
        Some(end) => {
            return Some((Element::Cookie { value: Span::range(i, end) }, end));
        },
        None => {},
    }
    match snippet_at(s, i, to) {
        Some((name, value, end)) => {
            return Some((Element::Snippet { name, value }, end));
        },
        None => {},
    }
    match macro_at(s, i, to) {
        Some((m, end)) => Some((Element::Macros(m), end)),
        None => None,
    }
}

} // verus!

verus! {

/// `s[i..end]` is a statistics cookie: `[` digits `%]` with at least one
/// digit, or `[` digits `/` digits `]`.
pub open spec fn cookie_shape(s: Seq<u8>, i: int, to: int, end: int) -> bool {
    &&& i + 3 <= end <= to
    &&& s[i] == 0x5bu8 && s[end - 1] == 0x5du8
    &&& ((s[end - 2] == 0x25u8 && i + 1 < end - 2 && all_digits(s, i + 1, end - 2)) || exists|
        sl: int,
    | i < sl < end - 1 && #[trigger] s[sl] == 0x2fu8 && all_digits(s, i + 1, sl) && all_digits(
        s,
        sl + 1,
        end - 1,
    ))
}

/// Recognizes a statistics cookie `[3/5]`, `[/]` or `[40%]` starting at `s[i]`.
pub fn cookie_at(s: &[u8], i: usize, to: usize) -> (r: Option<usize>)
    requires
        i < to <= s@.len(),
    ensures
        r is Some <==> exists|end: int| #[trigger] cookie_shape(s@, i as int, to as int, end),
        r matches Some(end) ==> cookie_shape(s@, i as int, to as int, end as int),
{
    if s[i] != 0x5b {
        return None;
    }
    let mut j = i + 1;
    while j < to && 0x30 <= s[j] && s[j] <= 0x39
        invariant
            i < j <= to <= s@.len(),
            all_digits(s@, i + 1, j as int),
        decreases to - j,
    {
        j = j + 1;
    }
    if j < to && s[j] == 0x25 {
        if j + 1 < to && s[j + 1] == 0x5d && j > i + 1 {
            assert(cookie_shape(s@, i as int, to as int, j + 2));
            return Some(j + 2);
        }
        proof {
            if exists|end: int| #[trigger] cookie_shape(s@, i as int, to as int, end) {
                let end = choose|end: int| #[trigger] cookie_shape(s@, i as int, to as int, end);
                if end - 2 > j {
                    assert(is_digit(s@[j as int]));
                } else if end - 2 < j && s@[end - 2] == 0x25u8 {
                    assert(is_digit(s@[end - 2]));
                } else if s@[end - 2] != 0x25u8 {
                    let sl = choose|sl: int| i < sl < end - 1 && #[trigger] s@[sl] == 0x2fu8 && all_digits(s@, i + 1, sl) && all_digits(s@, sl + 1, end - 1);
                    if sl < j {
                        assert(is_digit(s@[sl]));
                    } else if sl > j {
                        assert(is_digit(s@[j as int]));
                    }
                }
            }
        }
        return None;
    }
    if j >= to || s[j] != 0x2f {
        proof {
            if exists|end: int| #[trigger] cookie_shape(s@, i as int, to as int, end) {
                let end = choose|end: int| #[trigger] cookie_shape(s@, i as int, to as int, end);
                if s@[end - 2] == 0x25u8 && i + 1 < end - 2 && all_digits(s@, i + 1, end - 2) {
                    if end - 2 > j {
                        assert(is_digit(s@[j as int]));
                    } else if end - 2 < j {
                        assert(is_digit(s@[end - 2]));
                    }
                } else {
                    let sl = choose|sl: int| i < sl < end - 1 && #[trigger] s@[sl] == 0x2fu8 && all_digits(s@, i + 1, sl) && all_digits(s@, sl + 1, end - 1);
                    if sl < j {
                        assert(is_digit(s@[sl]));
                    } else if sl > j {
                        assert(is_digit(s@[j as int]));
                    }
                }
            }
        }
        return None;
    }
    let slash = j;
    j = j + 1;
    while j < to && 0x30 <= s[j] && s[j] <= 0x39
        invariant
            slash < j <= to <= s@.len(),
            all_digits(s@, slash + 1, j as int),
        decreases to - j,
    {
        j = j + 1;
    }
    if j < to && s[j] == 0x5d {
        assert(cookie_shape(s@, i as int, to as int, j + 1));
        Some(j + 1)
    } else {
        proof {
            if exists|end: int| #[trigger] cookie_shape(s@, i as int, to as int, end) {
                let end = choose|end: int| #[trigger] cookie_shape(s@, i as int, to as int, end);
                if s@[end - 2] == 0x25u8 && i + 1 < end - 2 && all_digits(s@, i + 1, end - 2) {
                    if end - 2 > slash {
                        assert(is_digit(s@[slash as int]));
                    } else if end - 2 < slash {
                        assert(is_digit(s@[end - 2]));
                    }
                } else {
                    let sl = choose|sl: int| i < sl < end - 1 && #[trigger] s@[sl] == 0x2fu8 && all_digits(s@, i + 1, sl) && all_digits(s@, sl + 1, end - 1);
                    if sl < slash {
                        assert(is_digit(s@[sl]));
                    } else if sl > slash {
                        assert(is_digit(s@[slash as int]));
                    } else if end - 1 > j {
                        assert(is_digit(s@[j as int]));
                    } else if end - 1 < j {
                        assert(is_digit(s@[end - 1]));
                    }
                }
            }
        }
        None
    }
}

/// `s[i + 2..c]` is a snippet's name, ended by the first colon, and `j` is the
/// first `@@` after it, within `to`.
pub open spec fn snippet_shape(s: Seq<u8>, i: int, to: int, c: int, j: int) -> bool {
    &&& i + 2 < c < j && j + 2 <= to
    &&& forall|k: int| i + 2 <= k < c ==> s[k] != 0x3au8
    &&& s[c] == 0x3au8
    &&& s[j] == 0x40u8 && s[j + 1] == 0x40u8
    &&& forall|k: int| c < k < j ==> !(#[trigger] s[k] == 0x40u8 && s[k + 1] == 0x40u8)
}

/// Recognizes an export snippet `@@name:value@@` starting at `s[i]`.
pub fn snippet_at(s: &[u8], i: usize, to: usize) -> (r: Option<(Span, Span, usize)>)
    requires
        i < to <= s@.len(),
    ensures
        r is Some <==> (i + 1 < to && s@[i as int] == 0x40u8 && s@[i + 1] == 0x40u8 && exists|
            c: int,
            j: int,
        | #[trigger] snippet_shape(s@, i as int, to as int, c, j)),
        r matches Some((name, value, end)) ==> {
            &&& name.start == i + 2 && value.start == name.end() + 1 && value.end() + 2 == end
            &&& snippet_shape(s@, i as int, to as int, name.end(), value.end())
        },
{
    if to - i < 6 || s[i] != 0x40 || s[i + 1] != 0x40 {
        return None;
    }
    let c = find_byte(s, 0x3a, i + 2, to);
    if c == i + 2 || c == to {
        proof {
            if exists|c2: int, j2: int| #[trigger] snippet_shape(s@, i as int, to as int, c2, j2) {
                let (c2, j2) = choose|c2: int, j2: int| #[trigger] snippet_shape(s@, i as int, to as int, c2, j2);
                if c == i + 2 {
                    assert(s@[c as int] == 0x3au8);
                } else {
                    assert(s@[c2] == 0x3au8);
                }
            }
        }
        return None;
    }
    let mut j = c + 1;
    while j < to - 1
        invariant
            i + 2 < c < j <= to,
            to <= s@.len(),
            s@[i as int] == 0x40u8 && s@[i + 1] == 0x40u8,
            s@[c as int] == 0x3au8,
            forall|k: int| i + 2 <= k < c ==> s@[k] != 0x3au8,
            forall|k: int| c < k < j ==> !(#[trigger] s@[k] == 0x40u8 && s@[k + 1] == 0x40u8),
        decreases to - j,
    {
        if s[j] == 0x40 && s[j + 1] == 0x40 {
            assert(snippet_shape(s@, i as int, to as int, c as int, j as int));
            assert(exists|c2: int, j2: int| #[trigger] snippet_shape(s@, i as int, to as int, c2, j2));
            return Some((Span::range(i + 2, c), Span::range(c + 1, j), j + 2));
        }
        j = j + 1;
    }
    proof {
        if exists|c2: int, j2: int| #[trigger] snippet_shape(s@, i as int, to as int, c2, j2) {
            let (c2, j2) = choose|c2: int, j2: int| #[trigger] snippet_shape(s@, i as int, to as int, c2, j2);
            if c2 < c {
                assert(s@[c2] == 0x3au8);
            } else if c2 > c {
                assert(s@[c as int] == 0x3au8);
            } else {
                assert(j2 < j);
            }
        }
    }
    None
}

} // verus!

verus! {

/// Length of the planning keyword at `s[p..]`: `DEADLINE:`, `SCHEDULED:` or
/// `CLOSED:`; 0 when none starts there.
pub open spec fn planning_keyword_len(s: Seq<u8>, p: int, to: int) -> int {
    if to - p >= 9 && s.subrange(p, p + 9) == "DEADLINE:".spec_bytes() {
        9
    } else if to - p >= 10 && s.subrange(p, p + 10) == "SCHEDULED:".spec_bytes() {
        10
    } else if to - p >= 7 && s.subrange(p, p + 7) == "CLOSED:".spec_bytes() {
        7
    } else {
        0
    }
}

/// Position just past the timestamp that starts at `s[q]`.
pub open spec fn ts_end(s: Seq<u8>, q: int, to: int) -> int {
    ts_after_time(s, ts_after_day(s, q, to), to) + 1
}

/// From `p` on, `s[..to]` is a run of planning keywords, each followed by
/// spaces and a timestamp, with spaces between.
pub open spec fn planning_from(s: Seq<u8>, p: int, to: int) -> bool
    decreases to - p,
{
    let a = skip_sp(s, p, to);
    if a >= to || a < p {
        true
    } else {
        let k = planning_keyword_len(s, a, to);
        let q = skip_sp(s, a + k, to);
        let e = ts_end(s, q, to);
        &&& k > 0
        &&& q < to
        &&& timestamp_shape(s, q, to)
        &&& p < e
        &&& planning_from(s, e, to)
    }
}

/// Recognizes the planning line `s[from..to]`: one or more of `DEADLINE:`,
/// `SCHEDULED:` and `CLOSED:`, each followed by a timestamp.
#[verifier::rlimit(60)]
pub fn parse_planning(s: &[u8], from: usize, to: usize) -> (r: Option<Planning>)
    requires
        from <= to <= s@.len(),
    ensures
        r is Some <==> skip_sp(s@, from as int, to as int) < to && planning_from(
            s@,
            from as int,
            to as int,
        ),
        r matches Some(p) ==> (p.deadline is Some || p.scheduled is Some || p.closed is Some)
            && Element::Planning(p).within(to as nat),
{
    let mut plan = Planning { deadline: None, scheduled: None, closed: None };
    let mut p = from;
    while p < to
        invariant
            from <= p <= to <= s@.len(),
            Element::Planning(plan).within(to as nat),
            planning_from(s@, from as int, to as int) == planning_from(s@, p as int, to as int),
            p > from ==> (plan.deadline is Some || plan.scheduled is Some || plan.closed is Some),
            (plan.deadline is Some || plan.scheduled is Some || plan.closed is Some) ==> skip_sp(
                s@,
                from as int,
                to as int,
            ) < to,
        ensures
            from <= p <= to,
            Element::Planning(plan).within(to as nat),
            planning_from(s@, from as int, to as int),
            p > from ==> (plan.deadline is Some || plan.scheduled is Some || plan.closed is Some),
            (plan.deadline is Some || plan.scheduled is Some || plan.closed is Some) ==> skip_sp(
                s@,
                from as int,
                to as int,
            ) < to,
            p == from ==> skip_sp(s@, from as int, to as int) == to,
        decreases to - p,
    {
        let a = skip_spaces(s, p, to);
        if a == to {
            assert(planning_from(s@, p as int, to as int));
            break;
        }
        let kind: u8 = if to - a >= 9 && bytes_eq(s, a, a + 9, "DEADLINE:".as_bytes()) {
            1
        } else if to - a >= 10 && bytes_eq(s, a, a + 10, "SCHEDULED:".as_bytes()) {
            2
        } else if to - a >= 7 && bytes_eq(s, a, a + 7, "CLOSED:".as_bytes()) {
            3
        } else {
            return None;
        };
        let q = skip_spaces(s, a + if kind == 1 { 9 } else if kind == 2 { 10 } else { 7 }, to);
        if q == to {
            return None;
        }
        match timestamp_at(s, q, to) {
            Some((t, end)) => {
                if kind == 1 {
                    plan.deadline = Some(t);
                } else if kind == 2 {
                    plan.scheduled = Some(t);
                } else {
                    plan.closed = Some(t);
                }
                p = end;
            },
            None => {
                return None;
            },
        }
    }
    if plan.deadline.is_some() || plan.scheduled.is_some() || plan.closed.is_some() {
        Some(plan)
    } else {
        None
    }
}

/// `s[from..to]` is a clock line: `CLOCK:`, a timestamp, and either the end
/// of the line or `--`, a second timestamp, and then the end of the line or
/// `=>` and a duration.
pub open spec fn clock_shape(s: Seq<u8>, from: int, to: int) -> bool {
    let p = skip_sp(s, from + 6, to);
    let e1 = ts_end(s, p, to);
    let q = skip_sp(s, ts_end(s, e1 + 2, to), to);
    &&& to - from >= 6 && s.subrange(from, from + 6) == "CLOCK:".spec_bytes()
    &&& p < to && timestamp_shape(s, p, to)
    &&& (e1 == to || (to - e1 >= 3 && s[e1] == 0x2du8 && s[e1 + 1] == 0x2du8 && timestamp_shape(
        s,
        e1 + 2,
        to,
    ) && (q == to || (to - q >= 2 && s[q] == 0x3du8 && s[q + 1] == 0x3eu8))))
}

/// Recognizes the clock line `s[from..to]`: `CLOCK:` and a timestamp,
/// optionally `--`, a second timestamp, `=>` and a duration.
pub fn parse_clock(s: &[u8], from: usize, to: usize) -> (r: Option<Clock>)
    requires
        from <= to <= s@.len(),
    ensures
        r is Some <==> clock_shape(s@, from as int, to as int),
        r matches Some(c) ==> Element::Clock(c).within(to as nat) && (c.duration is Some
            ==> c.end is Some),
{
    if to - from < 6 || !bytes_eq(s, from, from + 6, "CLOCK:".as_bytes()) {
        return None;
    }
    let p = skip_spaces(s, from + 6, to);
    if p == to {
        return None;
    }
    let (start, e1) = match timestamp_at(s, p, to) {
        Some(x) => x,
        None => {
            return None;
        },
    };
    if e1 == to {
        return Some(Clock { start, end: None, duration: None });
    }
    if to - e1 < 3 || s[e1] != 0x2d || s[e1 + 1] != 0x2d {
        return None;
    }
    let (end, e2) = match timestamp_at(s, e1 + 2, to) {
        Some(x) => x,
        None => {
            return None;
        },
    };
    let q = skip_spaces(s, e2, to);
    if q == to {
        return Some(Clock { start, end: Some(end), duration: None });
    }
    if to - q < 2 || s[q] != 0x3d || s[q + 1] != 0x3e {
        return None;
    }
    let d = skip_spaces(s, q + 2, to);
    let de = trim_end(s, d, to);
    Some(Clock { start, end: Some(end), duration: Some(Span::range(d, de)) })
}

} // verus!

verus! {

/// End of the word of `s[from..to]` that stops at a space or at one of
/// `stop1`, `stop2`.
fn word_end(s: &[u8], from: usize, to: usize, stop1: u8, stop2: u8) -> (r: usize)
    requires
        from <= to <= s@.len(),
    ensures
        from <= r <= to,
        r < to ==> (is_space(s@[r as int]) || s@[r as int] == stop1 || s@[r as int] == stop2),
        forall|j: int| from <= j < r ==> !is_space(#[trigger] s@[j]) && s@[j] != stop1 && s@[j] != stop2,
{
    let mut j = from;
    while j < to && !is_space_byte(s[j]) && s[j] != stop1 && s[j] != stop2
        invariant
            from <= j <= to <= s@.len(),
            forall|k: int| from <= k < j ==> !is_space(#[trigger] s@[k]) && s@[k] != stop1 && s@[k] != stop2,
        decreases to - j,
    {
        j = j + 1;
    }
    j
}

/// The `open` at `s[from]` is balanced by the `close` that ends at `e`.
pub open spec fn balanced_at(s: Seq<u8>, open: u8, close: u8, from: int, e: int) -> bool {
    &&& from < e
    &&& depth(s, open, close, from, e) == 0
    &&& forall|k: int| from < k < e ==> depth(s, open, close, from, k) > 0
}

/// `s[i..e]` is `src_LANG{BODY}` or `src_LANG[OPTIONS]{BODY}`: a language of
/// no spaces, `[` or `{` ending at `le`, balanced options up to `p`, and a
/// balanced body from `p` to `e`.
pub open spec fn src_shape(s: Seq<u8>, i: int, to: int, le: int, p: int, e: int) -> bool {
    &&& s.subrange(i, i + 4) == "src_".spec_bytes()
    &&& i + 4 < le <= p < e <= to
    &&& forall|k: int|
        i + 4 <= k < le ==> !is_space(#[trigger] s[k]) && s[k] != 0x5bu8 && s[k] != 0x7bu8
    &&& (p == le || (s[le] == 0x5bu8 && balanced_at(s, 0x5bu8, 0x5du8, le, p)))
    &&& s[p] == 0x7bu8
    &&& balanced_at(s, 0x7bu8, 0x7du8, p, e)
}

pub proof fn lemma_balanced_unique(s: Seq<u8>, open: u8, close: u8, from: int, e1: int, e2: int)
    requires
        balanced_at(s, open, close, from, e1),
        balanced_at(s, open, close, from, e2),
    ensures
        e1 == e2,
{
    if e1 < e2 {
        assert(depth(s, open, close, from, e1) > 0);
    } else if e2 < e1 {
        assert(depth(s, open, close, from, e2) > 0);
    }
}

/// Recognizes inline source `src_LANG{BODY}` or `src_LANG[OPTIONS]{BODY}`
/// starting at `s[i]`; braces and brackets must balance.
pub fn inline_src_at(s: &[u8], i: usize, to: usize) -> (r: Option<(Element, usize)>)
    requires
        i < to <= s@.len(),
    ensures
        r is Some <==> i + 4 <= to && exists|le: int, p: int, e: int|
            #[trigger] src_shape(s@, i as int, to as int, le, p, e),
        r matches Some((e, end)) ==> i < end <= to && e.within(to as nat) && !e.container()
            && s@[end - 1] == 0x7du8,
{
    if to - i < 7 || !bytes_eq(s, i, i + 4, "src_".as_bytes()) {
        proof {
            if i + 4 <= to && exists|le: int, p: int, e: int| #[trigger] src_shape(s@, i as int, to as int, le, p, e) {
                let (le, p, e) = choose|le: int, p: int, e: int| #[trigger] src_shape(s@, i as int, to as int, le, p, e);
                assert(depth(s@, 0x7bu8, 0x7du8, p, p) == 0);
                assert(depth(s@, 0x7bu8, 0x7du8, p, p + 1) == 1);
            }
        }
        return None;
    }
    let le = word_end(s, i + 4, to, 0x5b, 0x7b);
    if le == i + 4 || le == to {
        proof {
            if exists|le2: int, p2: int, e2: int| #[trigger] src_shape(s@, i as int, to as int, le2, p2, e2) {
                let (le2, p2, e2) = choose|le2: int, p2: int, e2: int| #[trigger] src_shape(s@, i as int, to as int, le2, p2, e2);
                if le2 < le {
                    assert(s@[le2] == 0x5bu8 || s@[le2] == 0x7bu8);
                }
            }
        }
        return None;
    }
    proof {
        if exists|le2: int, p2: int, e2: int| #[trigger] src_shape(s@, i as int, to as int, le2, p2, e2) {
            let (le2, p2, e2) = choose|le2: int, p2: int, e2: int| #[trigger] src_shape(s@, i as int, to as int, le2, p2, e2);
            if le2 < le {
                assert(s@[le2] == 0x5bu8 || s@[le2] == 0x7bu8);
            } else if le2 > le {
                assert(!is_space(s@[le as int]));
            }
        }
    }
    let lang = Span::range(i + 4, le);
    let mut p = le;
    let mut options: Option<Span> = None;
    if s[p] == 0x5b {
        match balanced_span(s, p, to, 0x5b, 0x5d) {
            Some(e) => {
                assert(depth(s@, 0x5bu8, 0x5du8, le as int, le as int) == 0);
                assert(depth(s@, 0x5bu8, 0x5du8, le as int, le + 1) == 1);
                assert(balanced_at(s@, 0x5bu8, 0x5du8, le as int, e as int));
                if e == to {
                    proof {
                        if exists|le2: int, p2: int, e2: int| #[trigger] src_shape(s@, i as int, to as int, le2, p2, e2) {
                            let (le2, p2, e2) = choose|le2: int, p2: int, e2: int| #[trigger] src_shape(s@, i as int, to as int, le2, p2, e2);
                            lemma_balanced_unique(s@, 0x5bu8, 0x5du8, le as int, p2, e as int);
                        }
                    }
                    return None;
                }
                options = Some(Span::range(p + 1, e - 1));
                p = e;
            },
            None => {
                return None;
            },
        }
    }
    if s[p] != 0x7b {
        proof {
            if exists|le2: int, p2: int, e2: int| #[trigger] src_shape(s@, i as int, to as int, le2, p2, e2) {
                let (le2, p2, e2) = choose|le2: int, p2: int, e2: int| #[trigger] src_shape(s@, i as int, to as int, le2, p2, e2);
                if p2 != le {
                    lemma_balanced_unique(s@, 0x5bu8, 0x5du8, le as int, p2, p as int);
                }
            }
        }
        return None;
    }
    match balanced_span(s, p, to, 0x7b, 0x7d) {
        Some(e) => {
            assert(depth(s@, 0x7bu8, 0x7du8, p as int, p as int) == 0);
            assert(depth(s@, 0x7bu8, 0x7du8, p as int, p + 1) == 1);
            assert(src_shape(s@, i as int, to as int, le as int, p as int, e as int));
            proof {
                if s@[e - 1] != 0x7du8 {
                    assert(depth(s@, 0x7bu8, 0x7du8, p as int, e - 1) > 0);
                }
            }
            Some((Element::InlineSrc { lang, options, body: Span::range(p + 1, e - 1) }, e))
        },
        None => {
            proof {
                if exists|le2: int, p2: int, e2: int| #[trigger] src_shape(s@, i as int, to as int, le2, p2, e2) {
                    let (le2, p2, e2) = choose|le2: int, p2: int, e2: int| #[trigger] src_shape(s@, i as int, to as int, le2, p2, e2);
                    if p2 != le && p != le {
                        lemma_balanced_unique(s@, 0x5bu8, 0x5du8, le as int, p2, p as int);
                    }
                    assert(depth(s@, 0x7bu8, 0x7du8, p2, e2) == 0);
                }
            }
            None
        },
    }
}

/// `s[i..e]` is `call_NAME(ARGS)`: a name of no spaces, `(` or `[`, ended
/// at `ne` by a `(` whose balancing `)` ends at `e`.
pub open spec fn call_shape(s: Seq<u8>, i: int, to: int, ne: int, e: int) -> bool {
    &&& s.subrange(i, i + 5) == "call_".spec_bytes()
    &&& i + 5 < ne < e <= to
    &&& forall|k: int|
        i + 5 <= k < ne ==> !is_space(#[trigger] s[k]) && s[k] != 0x28u8 && s[k] != 0x5bu8
    &&& s[ne] == 0x28u8
    &&& depth(s, 0x28u8, 0x29u8, ne, e) == 0
    &&& forall|k: int| ne < k < e ==> depth(s, 0x28u8, 0x29u8, ne, k) > 0
}

/// Recognizes an inline call `call_NAME(ARGS)` starting at `s[i]`;
/// parentheses must balance.
pub fn inline_call_at(s: &[u8], i: usize, to: usize) -> (r: Option<(Element, usize)>)
    requires
        i < to <= s@.len(),
    ensures
        r is Some <==> i + 5 <= to && exists|ne: int, e: int| #[trigger] call_shape(s@, i as int, to as int, ne, e),
        r matches Some((e, end)) ==> i < end <= to && e.within(to as nat) && !e.container()
            && s@[end - 1] == 0x29u8,
{
    if to - i < 8 || !bytes_eq(s, i, i + 5, "call_".as_bytes()) {
        proof {
            if i + 5 <= to && exists|ne: int, e: int| #[trigger] call_shape(s@, i as int, to as int, ne, e) {
                let (ne, e) = choose|ne: int, e: int| #[trigger] call_shape(s@, i as int, to as int, ne, e);
                assert(depth(s@, 0x28u8, 0x29u8, ne, ne) == 0);
                assert(depth(s@, 0x28u8, 0x29u8, ne, ne + 1) == 1);
            }
        }
        return None;
    }
    let ne = word_end(s, i + 5, to, 0x28, 0x5b);
    if ne == i + 5 || ne == to || s[ne] != 0x28 {
        proof {
            if exists|ne2: int, e2: int| #[trigger] call_shape(s@, i as int, to as int, ne2, e2) {
                let (ne2, e2) = choose|ne2: int, e2: int| #[trigger] call_shape(s@, i as int, to as int, ne2, e2);
                if ne2 < ne {
                    assert(s@[ne2] == 0x28u8);
                } else if ne2 > ne && ne < to {
                    assert(!is_space(s@[ne as int]));
                }
            }
        }
        return None;
    }
    match balanced_span(s, ne, to, 0x28, 0x29) {
        Some(e) => {
            assert(depth(s@, 0x28u8, 0x29u8, ne as int, ne as int) == 0);
            assert(depth(s@, 0x28u8, 0x29u8, ne as int, ne + 1) == 1);
            assert(call_shape(s@, i as int, to as int, ne as int, e as int));
            proof {
                if s@[e - 1] != 0x29u8 {
                    assert(depth(s@, 0x28u8, 0x29u8, ne as int, e - 1) > 0);
                }
            }
            Some((Element::InlineCall { name: Span::range(i + 5, ne), args: Span::range(ne + 1, e - 1) }, e))
        },
        None => {
            proof {
                if exists|ne2: int, e2: int| #[trigger] call_shape(s@, i as int, to as int, ne2, e2) {
                    let (ne2, e2) = choose|ne2: int, e2: int| #[trigger] call_shape(s@, i as int, to as int, ne2, e2);
                    if ne2 < ne {
                        assert(s@[ne2] == 0x28u8);
                    } else if ne2 > ne {
                        assert(s@[ne as int] == 0x28u8);
                    }
                }
            }
            None
        },
    }
}

} // verus!
