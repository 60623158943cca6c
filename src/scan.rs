use vstd::prelude::*;

verus! {

/// Relies on memchr::memchr: the index of the first occurrence of `needle`
/// in `hay`, or `None` when it does not occur.
#[verifier::external_body]
fn memchr_first(needle: u8, hay: &[u8]) -> (r: Option<usize>)
    ensures
        match r {
            Some(i) => i < hay@.len() && hay@[i as int] == needle && forall|j: int|
                0 <= j < i ==> hay@[j] != needle,
            None => forall|j: int| 0 <= j < hay@.len() ==> hay@[j] != needle,
        },
{
    memchr::memchr(needle, hay)
}

/// Position of the first `x` in `s[a..b]`, or `b` when there is none.
pub open spec fn first_at(s: Seq<u8>, x: u8, a: int, b: int) -> int
    decreases b - a,
{
    if a >= b {
        b
    } else if s[a] == x {
        a
    } else {
        first_at(s, x, a + 1, b)
    }
}

/// First position in `a..b` that is not a space, or `b`.
pub open spec fn skip_sp(s: Seq<u8>, a: int, b: int) -> int
    decreases b - a,
{
    if a >= b {
        b
    } else if is_space(s[a]) {
        skip_sp(s, a + 1, b)
    } else {
        a
    }
}

/// End of `a..b` with trailing spaces removed.
pub open spec fn trim_sp(s: Seq<u8>, a: int, b: int) -> int
    decreases b - a,
{
    if b <= a {
        a
    } else if is_space(s[b - 1]) {
        trim_sp(s, a, b - 1)
    } else {
        b
    }
}

proof fn lemma_first_at(s: Seq<u8>, x: u8, a: int, b: int, r: int)
    requires
        a <= r <= b,
        forall|j: int| a <= j < r ==> s[j] != x,
        r < b ==> s[r] == x,
    ensures
        first_at(s, x, a, b) == r,
    decreases r - a,
{
    if a < r {
        lemma_first_at(s, x, a + 1, b, r);
    }
}

/// Position of the first `needle` in `s[from..to]`, or `to` when there is none.
pub fn find_byte(s: &[u8], needle: u8, from: usize, to: usize) -> (r: usize)
    requires
        from <= to <= s@.len(),
    ensures
        from <= r <= to,
        forall|j: int| from <= j < r ==> s@[j] != needle,
        r < to ==> s@[r as int] == needle,
        r == first_at(s@, needle, from as int, to as int),
{
    let part = &s[from..to];
    match memchr_first(needle, part) {
        Some(i) => {
            assert(part@[i as int] == s@[from + i]);
            assert forall|j: int| from <= j < from + i implies s@[j] != needle by {
                assert(part@[j - from] == s@[j]);
            }
            proof {
                lemma_first_at(s@, needle, from as int, to as int, from + i);
            }
            from + i
        },
        None => {
            assert forall|j: int| from <= j < to implies s@[j] != needle by {
                assert(part@[j - from] == s@[j]);
            }
            proof {
                lemma_first_at(s@, needle, from as int, to as int, to as int);
            }
            to
        },
    }
}

pub open spec fn is_space(b: u8) -> bool {
    b == 0x20u8 || b == 0x09u8 || b == 0x0au8 || b == 0x0du8
}

pub fn is_space_byte(b: u8) -> (r: bool)
    ensures
        r == is_space(b),
{
    b == 0x20u8 || b == 0x09u8 || b == 0x0au8 || b == 0x0du8
}

/// First position in `from..to` that is not a space, or `to`.
pub fn skip_spaces(s: &[u8], from: usize, to: usize) -> (r: usize)
    requires
        from <= to <= s@.len(),
    ensures
        from <= r <= to,
        forall|j: int| from <= j < r ==> is_space(s@[j]),
        r < to ==> !is_space(s@[r as int]),
        r == skip_sp(s@, from as int, to as int),
{
    let mut i = from;
    while i < to && is_space_byte(s[i])
        invariant
            from <= i <= to <= s@.len(),
            skip_sp(s@, from as int, to as int) == skip_sp(s@, i as int, to as int),
            forall|j: int| from <= j < i ==> is_space(s@[j]),
        decreases to - i,
    {
        i = i + 1;
    }
    i
}

/// End of `from..to` with trailing spaces removed.
pub fn trim_end(s: &[u8], from: usize, to: usize) -> (r: usize)
    requires
        from <= to <= s@.len(),
    ensures
        from <= r <= to,
        forall|j: int| r <= j < to ==> is_space(s@[j]),
        r > from ==> !is_space(s@[r - 1]),
        r == trim_sp(s@, from as int, to as int),
{
    let mut e = to;
    while e > from && is_space_byte(s[e - 1])
        invariant
            from <= e <= to <= s@.len(),
            trim_sp(s@, from as int, to as int) == trim_sp(s@, from as int, e as int),
            forall|j: int| e <= j < to ==> is_space(s@[j]),
        decreases e - from,
    {
        e = e - 1;
    }
    e
}

/// Whether the bytes `from..to` of `s` are exactly `w`.
pub fn bytes_eq(s: &[u8], from: usize, to: usize, w: &[u8]) -> (r: bool)
    requires
        from <= to <= s@.len(),
    ensures
        r == (s@.subrange(from as int, to as int) == w@),
{
    if to - from != w.len() {
        return false;
    }
    let mut i: usize = 0;
    while i < w.len()
        invariant
            from <= to <= s@.len(),
            to - from == w@.len(),
            i <= w@.len(),
            forall|j: int| 0 <= j < i ==> s@[from + j] == w@[j],
        decreases w@.len() - i,
    {
        if s[from + i] != w[i] {
            assert(s@.subrange(from as int, to as int)[i as int] != w@[i as int]);
            return false;
        }
        i = i + 1;
    }
    assert(s@.subrange(from as int, to as int) =~= w@);
    true
}

} // verus!

verus! {

/// Number of `open` bytes minus number of `close` bytes in `s[from..k]`.
pub open spec fn depth(s: Seq<u8>, open: u8, close: u8, from: int, k: int) -> int
    decreases k - from,
{
    if k <= from {
        0
    } else {
        depth(s, open, close, from, k - 1) + if s[k - 1] == open {
            1int
        } else if s[k - 1] == close {
            -1int
        } else {
            0int
        }
    }
}

/// Given an `open` byte at `s[from]`, the position just past the `close`
/// that balances it within `s[from..to]`, or `None` if it is unterminated.
pub fn balanced_span(s: &[u8], from: usize, to: usize, open: u8, close: u8) -> (r: Option<usize>)
    requires
        from < to <= s@.len(),
        s@[from as int] == open,
        open != close,
    ensures
        r matches Some(end) ==> from < end <= to && depth(s@, open, close, from as int, end as int)
            == 0 && forall|k: int| from < k < end ==> depth(s@, open, close, from as int, k) > 0,
        r is None ==> forall|k: int| from < k <= to ==> depth(s@, open, close, from as int, k) > 0,
{
    let mut d: usize = 0;
    let mut k = from;
    while k < to
        invariant
            from <= k <= to <= s@.len(),
            s@[from as int] == open,
            open != close,
            d == depth(s@, open, close, from as int, k as int),
            d <= k - from,
            k > from ==> d > 0,
            forall|j: int| from < j <= k ==> depth(s@, open, close, from as int, j) > 0,
        decreases to - k,
    {
        let c = s[k];
        if c == open {
            d = d + 1;
        } else if c == close {
            if d == 1 {
                return Some(k + 1);
            }
            d = d - 1;
        }
        k = k + 1;
    }
    None
}

} // verus!
