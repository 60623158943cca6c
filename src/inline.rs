use vstd::prelude::*;

use crate::builder::Builder;
use crate::elements::{Element, Link};
use crate::objects::{balanced_at, inline_call_at, inline_src_at, lemma_balanced_unique, object_at};
use crate::scan::{balanced_span, depth, find_byte, is_space, is_space_byte};
use crate::span::Span;

verus! {

/// The emphasis markers `*` `/` `+` `_` `=` `~`.
pub open spec fn is_marker(b: u8) -> bool {
    b == 0x2au8 || b == 0x2fu8 || b == 0x2bu8 || b == 0x5fu8 || b == 0x3du8 || b == 0x7eu8
}

/// Bytes that may stand right before an opening marker.
pub open spec fn is_pre(b: u8) -> bool {
    is_space(b) || b == 0x2du8 || b == 0x28u8 || b == 0x7bu8 || b == 0x27u8 || b == 0x22u8
}

/// Bytes that may stand right after a closing marker.
pub open spec fn is_post(b: u8) -> bool {
    is_space(b) || b == 0x2du8 || b == 0x2eu8 || b == 0x2cu8 || b == 0x3au8 || b == 0x21u8
        || b == 0x3fu8 || b == 0x3bu8 || b == 0x27u8 || b == 0x22u8 || b == 0x29u8 || b == 0x7du8
        || b == 0x5bu8
}

fn is_pre_byte(b: u8) -> (r: bool)
    ensures
        r == is_pre(b),
{
    is_space_byte(b) || b == 0x2d || b == 0x28 || b == 0x7b || b == 0x27 || b == 0x22
}

fn is_post_byte(b: u8) -> (r: bool)
    ensures
        r == is_post(b),
{
    is_space_byte(b) || b == 0x2d || b == 0x2e || b == 0x2c || b == 0x3a || b == 0x21 || b == 0x3f
        || b == 0x3b || b == 0x27 || b == 0x22 || b == 0x29 || b == 0x7d || b == 0x5b
}

/// `s[i]` is a marker that may open emphasis within `from..to`.
pub open spec fn opens_at(s: Seq<u8>, from: int, to: int, i: int) -> bool {
    &&& from <= i && i + 1 < to
    &&& is_marker(s[i])
    &&& (i == from || is_pre(s[i - 1]))
    &&& !is_space(s[i + 1])
}

/// `s[j]` closes emphasis opened by `s[i]` within `.. to`.
pub open spec fn closes_at(s: Seq<u8>, i: int, to: int, j: int) -> bool {
    &&& i + 1 < j < to
    &&& s[j] == s[i]
    &&& !is_space(s[j - 1])
    &&& (j + 1 == to || is_post(s[j + 1]))
}

/// The first position that closes the emphasis opened at `i`, or `to`.
pub fn find_close(s: &[u8], i: usize, to: usize) -> (r: usize)
    requires
        i + 1 < to <= s@.len(),
    ensures
        i + 1 < r <= to,
        r < to ==> closes_at(s@, i as int, to as int, r as int),
        forall|j: int| i + 1 < j < r ==> !closes_at(s@, i as int, to as int, j),
{
    let m = s[i];
    let mut k = i + 2;
    while k < to
        invariant
            i + 1 < k <= to + 1,
            to <= s@.len(),
            m == s@[i as int],
            forall|j: int| i + 1 < j < k && j < to ==> !closes_at(s@, i as int, to as int, j),
        decreases to + 1 - k,
    {
        let j = find_byte(s, m, k, to);
        if j == to {
            return to;
        }
        if !is_space_byte(s[j - 1]) && (j + 1 == to || is_post_byte(s[j + 1])) {
            return j;
        }
        k = j + 1;
    }
    to
}

/// `s[i..end]` is a link `[[path]]` or `[[path][description]]`: the outer
/// brackets balance at `end`, the path's at `p`, and a description, if any,
/// balances right before the last `]`.
pub open spec fn link_shape(s: Seq<u8>, i: int, to: int, end: int, p: int) -> bool {
    &&& s[i] == 0x5bu8 && s[i + 1] == 0x5bu8
    &&& end <= to && end - i >= 5
    &&& balanced_at(s, 0x5bu8, 0x5du8, i, end)
    &&& i + 3 <= p <= end
    &&& balanced_at(s, 0x5bu8, 0x5du8, i + 1, p)
    &&& (p == end - 1 || (p < end - 1 && s[p] == 0x5bu8 && end - 1 - p >= 3 && balanced_at(
        s,
        0x5bu8,
        0x5du8,
        p,
        end - 1,
    )))
}

/// `s[i..p + 1]` is a footnote reference `[fn:label]`.
pub open spec fn fn_ref_shape(s: Seq<u8>, i: int, to: int, p: int) -> bool {
    &&& s[i] == 0x5bu8 && s[i + 1] == 0x66u8 && s[i + 2] == 0x6eu8 && s[i + 3] == 0x3au8
    &&& i + 4 < p < to
    &&& forall|k: int| i + 4 <= k < p ==> s[k] != 0x5du8
    &&& s[p] == 0x5du8
}

/// Recognizes a link `[[path]]` or `[[path][description]]`, or a footnote
/// reference `[fn:label]`, starting at `s[i]`; returns it with the position
/// just past it.
pub fn bracket_at(s: &[u8], i: usize, to: usize) -> (r: Option<(Element, usize)>)
    requires
        i < to <= s@.len(),
    ensures
        r is Some <==> (exists|end: int, p: int| #[trigger] link_shape(s@, i as int, to as int, end, p))
            || (i + 3 < to && exists|p: int| #[trigger] fn_ref_shape(s@, i as int, to as int, p)),
        r matches Some((e, end)) ==> {
            &&& i < end <= to
            &&& !e.container()
            &&& e.within(to as nat)
        },
        r is Some ==> s@[i as int] == 0x5bu8,
{
    if s[i] != 0x5b || to - i < 4 {
        return None;
    }
    if s[i + 1] == 0x5b {
        proof {
            if i + 3 < to && exists|p2: int| #[trigger] fn_ref_shape(s@, i as int, to as int, p2) {
                let p2 = choose|p2: int| #[trigger] fn_ref_shape(s@, i as int, to as int, p2);
                assert(s@[i + 1] == 0x66u8);
            }
        }
        let end = match balanced_span(s, i, to, 0x5b, 0x5d) {
            Some(e) => e,
            None => {
                proof {
                    if exists|end2: int, p2: int| #[trigger] link_shape(s@, i as int, to as int, end2, p2) {
                        let (end2, p2) = choose|end2: int, p2: int| #[trigger] link_shape(s@, i as int, to as int, end2, p2);
                        assert(depth(s@, 0x5bu8, 0x5du8, i as int, end2) == 0);
                    }
                }
                return None;
            },
        };
        assert(balanced_at(s@, 0x5bu8, 0x5du8, i as int, end as int));
        proof {
            if exists|end2: int, p2: int| #[trigger] link_shape(s@, i as int, to as int, end2, p2) {
                let (end2, p2) = choose|end2: int, p2: int| #[trigger] link_shape(s@, i as int, to as int, end2, p2);
                lemma_balanced_unique(s@, 0x5bu8, 0x5du8, i as int, end as int, end2);
            }
        }
        if end - i < 5 {
            return None;
        }
        let p = match balanced_span(s, i + 1, end, 0x5b, 0x5d) {
            Some(e) => e,
            None => {
                proof {
                    if exists|end2: int, p2: int| #[trigger] link_shape(s@, i as int, to as int, end2, p2) {
                        let (end2, p2) = choose|end2: int, p2: int| #[trigger] link_shape(s@, i as int, to as int, end2, p2);
                        assert(depth(s@, 0x5bu8, 0x5du8, i + 1, p2) == 0);
                    }
                }
                return None;
            },
        };
        assert(balanced_at(s@, 0x5bu8, 0x5du8, i + 1, p as int));
        proof {
            if exists|end2: int, p2: int| #[trigger] link_shape(s@, i as int, to as int, end2, p2) {
                let (end2, p2) = choose|end2: int, p2: int| #[trigger] link_shape(s@, i as int, to as int, end2, p2);
                lemma_balanced_unique(s@, 0x5bu8, 0x5du8, i + 1, p as int, p2);
            }
        }
        if p < i + 3 {
            return None;
        }
        let path = Span::range(i + 2, p - 1);
        if p == end - 1 {
            assert(link_shape(s@, i as int, to as int, end as int, p as int));
            return Some((Element::Link(Link { path, desc: None }), end));
        }
        if p >= end - 1 || s[p] != 0x5b {
            return None;
        }
        let q = match balanced_span(s, p, end, 0x5b, 0x5d) {
            Some(e) => e,
            None => {
                proof {
                    if exists|end2: int, p2: int| #[trigger] link_shape(s@, i as int, to as int, end2, p2) {
                        assert(depth(s@, 0x5bu8, 0x5du8, p as int, end - 1) == 0);
                    }
                }
                return None;
            },
        };
        assert(balanced_at(s@, 0x5bu8, 0x5du8, p as int, q as int));
        if q != end - 1 || q - p < 3 {
            proof {
                if exists|end2: int, p2: int| #[trigger] link_shape(s@, i as int, to as int, end2, p2) {
                    lemma_balanced_unique(s@, 0x5bu8, 0x5du8, p as int, q as int, end - 1);
                }
            }
            return None;
        }
        assert(link_shape(s@, i as int, to as int, end as int, p as int));
        Some((Element::Link(Link { path, desc: Some(Span::range(p + 1, q - 1)) }), end))
    } else if s[i + 1] == 0x66 && s[i + 2] == 0x6e && s[i + 3] == 0x3a {
        proof {
            if exists|end2: int, p2: int| #[trigger] link_shape(s@, i as int, to as int, end2, p2) {
                assert(s@[i + 1] == 0x5bu8);
            }
        }
        let p = find_byte(s, 0x5d, i + 4, to);
        if p == i + 4 || p == to {
            proof {
                if exists|p2: int| #[trigger] fn_ref_shape(s@, i as int, to as int, p2) {
                    let p2 = choose|p2: int| #[trigger] fn_ref_shape(s@, i as int, to as int, p2);
                    if p2 < p {
                        assert(s@[p2] == 0x5du8);
                    } else if p < to {
                        assert(s@[p as int] == 0x5du8);
                    }
                }
            }
            return None;
        }
        assert(fn_ref_shape(s@, i as int, to as int, p as int));
        Some((Element::FnRef { label: Span::range(i + 4, p) }, p + 1))
    } else {
        None
    }
}

/// Recognizes inline content of `s[from..to]` and appends it to the innermost
/// open container: emphasis spans where a valid closing marker follows, and
/// text runs for everything else.
pub(crate) fn parse_inline(s: &[u8], from: usize, to: usize, b: &mut Builder)
    requires
        old(b).inv(),
        old(b).depth() >= 1,
        old(b).src_len() == s@.len(),
        from <= to <= s@.len(),
    ensures
        final(b).inv(),
        final(b).src_len() == old(b).src_len(),
        final(b).depth() == old(b).depth(),
        final(b).size() >= old(b).size(),
    decreases to - from,
{
    let mut text = from;
    let mut i = from;
    while i < to
        invariant
            b.inv(),
            b.depth() == old(b).depth(),
            b.depth() >= 1,
            b.src_len() == s@.len(),
            b.size() >= old(b).size(),
            from <= text <= i <= to <= s@.len(),
        decreases to - i,
    {
        let c = s[i];
        if c == 0x3c || c == 0x5b || c == 0x7b || c == 0x40 {
            let found = if c == 0x5b {
                match bracket_at(s, i, to) {
                    Some(x) => Some(x),
                    None => object_at(s, i, to),
                }
            } else {
                object_at(s, i, to)
            };
            match found {
                Some((e, end)) => {
                    if text < i {
                        b.leaf(Element::Text { value: Span::range(text, i) });
                    }
                    b.leaf(e);
                    i = end;
                    text = end;
                    continue;
                },
                None => {},
            }
        }
        if (c == 0x73 || c == 0x63) && (i == from || is_pre_byte(s[i - 1])) {
            let found = if c == 0x73 {
                inline_src_at(s, i, to)
            } else {
                inline_call_at(s, i, to)
            };
            match found {
                Some((e, end)) => {
                    if text < i {
                        b.leaf(Element::Text { value: Span::range(text, i) });
                    }
                    b.leaf(e);
                    i = end;
                    text = end;
                    continue;
                },
                None => {},
            }
        }
        let marker = c == 0x2a || c == 0x2f || c == 0x2b || c == 0x5f || c == 0x3d || c == 0x7e;
        if marker && i + 1 < to && (i == from || is_pre_byte(s[i - 1])) && !is_space_byte(s[i + 1]) {
            let j = find_close(s, i, to);
            if j < to {
                if text < i {
                    b.leaf(Element::Text { value: Span::range(text, i) });
                }
                if c == 0x3d || c == 0x7e {
                    let value = Span::range(i + 1, j);
                    if c == 0x3d {
                        b.leaf(Element::Verbatim { value });
                    } else {
                        b.leaf(Element::Code { value });
                    }
                } else {
                    let e = if c == 0x2a {
                        Element::Bold
                    } else if c == 0x2f {
                        Element::Italic
                    } else if c == 0x2b {
                        Element::Strike
                    } else {
                        Element::Underline
                    };
                    if b.open(e) {
                        parse_inline(s, i + 1, j, b);
                        b.close();
                    }
                }
                i = j + 1;
                text = i;
            } else {
                i = i + 1;
            }
        } else {
            i = i + 1;
        }
    }
    if text < to {
        b.leaf(Element::Text { value: Span::range(text, to) });
    }
}

} // verus!
