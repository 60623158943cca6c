use vstd::prelude::*;
use vstd::string::StringSliceAdditionalSpecFns;
use vstd::utf8::encode_utf8;

use crate::elements::{Keyword, Title};
use crate::lines::{fn_def_line, keyword_line, keyword_of, parse_fn_def, parse_keyword};
use crate::scan::find_byte;
use crate::span::Span;
use crate::title::{count_stars, parse_title, title_ok, ParseConfig};

verus! {

/// Position of the first newline at or after `pos`, or the length of `s`.
pub open spec fn next_newline(s: Seq<u8>, pos: int) -> int
    decreases s.len() - pos,
{
    if pos < 0 || pos >= s.len() {
        s.len() as int
    } else if s[pos] == 0x0au8 {
        pos
    } else {
        next_newline(s, pos + 1)
    }
}

/// The lines of `s` from `pos` on, as (start, end): the end leaves out the
/// newline and a carriage return before it.
pub open spec fn lines_from(s: Seq<u8>, pos: int) -> Seq<(int, int)>
    decreases s.len() + 1 - pos,
{
    let nl = next_newline(s, pos);
    if pos < 0 || pos >= s.len() || nl < pos || nl > s.len() {
        Seq::empty()
    } else {
        let e = if nl > pos && s[nl - 1] == 0x0du8 {
            nl - 1
        } else {
            nl
        };
        seq![(pos, e)] + lines_from(s, nl + 1)
    }
}

/// The line `s[a..e]` is a headline of level `k`: `k` stars, then a space.
pub open spec fn headline_at(s: Seq<u8>, a: int, e: int, k: int) -> bool {
    &&& 1 <= k && a + k < e
    &&& forall|j: int| a <= j < a + k ==> s[j] == 0x2au8
    &&& s[a + k] == 0x20u8
}

/// Whether line `l` is a headline (`kind` 0), a keyword line (1) or a
/// footnote definition (2).
pub open spec fn line_is(s: Seq<u8>, a: int, e: int, kind: int) -> bool {
    if kind == 0 {
        exists|k: int| #[trigger] headline_at(s, a, e, k)
    } else if kind == 1 {
        exists|c: int| #[trigger] keyword_line(s, a, e, c)
    } else {
        exists|c: int| #[trigger] fn_def_line(s, a, e, c)
    }
}

/// The lines of `ls` of the given kind, in order.
pub open spec fn select(s: Seq<u8>, ls: Seq<(int, int)>, kind: int) -> Seq<(int, int)>
    decreases ls.len(),
{
    if ls.len() == 0 {
        Seq::empty()
    } else {
        (if line_is(s, ls[0].0, ls[0].1, kind) {
            seq![ls[0]]
        } else {
            Seq::empty()
        }) + select(s, ls.drop_first(), kind)
    }
}

/// The default todo keywords: `TODO` and `DONE`.
pub open spec fn default_keyword(w: Seq<u8>) -> bool {
    w == "TODO".spec_bytes() || w == "DONE".spec_bytes()
}

/// `r` holds the title of each headline line of `s`, in order, as the title
/// grammar gives it with the default keywords.
pub open spec fn headlines_ok(s: Seq<u8>, r: Seq<Title>) -> bool {
    let ls = select(s, lines_from(s, 0), 0);
    &&& r.len() == ls.len()
    &&& forall|i: int|
        0 <= i < r.len() ==> headline_at(s, ls[i].0, ls[i].1, (#[trigger] r[i]).level as int)
            && r[i].within(s.len()) && title_ok(s, ls[i].0, ls[i].1, |w: Seq<u8>| default_keyword(w), r[i])
}

/// `r` holds the keyword of each keyword line of `s`, in order.
pub open spec fn keywords_ok(s: Seq<u8>, r: Seq<Keyword>) -> bool {
    let ls = select(s, lines_from(s, 0), 1);
    &&& r.len() == ls.len()
    &&& forall|i: int| 0 <= i < r.len() ==> keyword_of(s, ls[i].0, ls[i].1, #[trigger] r[i])
}

/// `r` holds the label of each footnote definition line of `s`, in order.
pub open spec fn footnotes_ok(s: Seq<u8>, r: Seq<Span>) -> bool {
    let ls = select(s, lines_from(s, 0), 2);
    &&& r.len() == ls.len()
    &&& forall|i: int|
        0 <= i < r.len() ==> (#[trigger] r[i]).start == ls[i].0 + 4 && fn_def_line(
            s,
            ls[i].0,
            ls[i].1,
            r[i].end(),
        )
}

proof fn lemma_next_newline(s: Seq<u8>, pos: int, r: int)
    requires
        0 <= pos <= r <= s.len(),
        forall|j: int| pos <= j < r ==> s[j] != 0x0au8,
        r < s.len() ==> s[r] == 0x0au8,
    ensures
        next_newline(s, pos) == r,
    decreases r - pos,
{
    if pos < r {
        lemma_next_newline(s, pos + 1, r);
    }
}

proof fn lemma_select_cons(s: Seq<u8>, x: (int, int), rest: Seq<(int, int)>, kind: int)
    ensures
        select(s, seq![x] + rest, kind) == (if line_is(s, x.0, x.1, kind) {
            seq![x]
        } else {
            Seq::empty()
        }) + select(s, rest, kind),
{
    assert((seq![x] + rest).drop_first() =~= rest);
    assert((seq![x] + rest)[0] == x);
}

/// Classifies the line `s[pos..e]` and appends what it holds.
fn scan_line(
    s: &[u8],
    pos: usize,
    e: usize,
    config: &ParseConfig,
    headlines: &mut Vec<Title>,
    keywords: &mut Vec<Keyword>,
    footnotes: &mut Vec<Span>,
) -> (r: (bool, bool, bool))
    requires
        pos <= e <= s@.len(),
        forall|w: Seq<u8>| config.has_keyword(w) == default_keyword(w),
    ensures
        r.0 == line_is(s@, pos as int, e as int, 0),
        r.1 == line_is(s@, pos as int, e as int, 1),
        r.2 == line_is(s@, pos as int, e as int, 2),
        final(headlines)@ == if r.0 {
            old(headlines)@.push(final(headlines)@.last())
        } else {
            old(headlines)@
        },
        r.0 ==> headline_at(s@, pos as int, e as int, final(headlines)@.last().level as int)
            && final(headlines)@.last().within(s@.len()) && title_ok(
            s@,
            pos as int,
            e as int,
            |w: Seq<u8>| default_keyword(w),
            final(headlines)@.last(),
        ),
        final(keywords)@ == if r.1 {
            old(keywords)@.push(final(keywords)@.last())
        } else {
            old(keywords)@
        },
        r.1 ==> keyword_of(s@, pos as int, e as int, final(keywords)@.last()),
        final(footnotes)@ == if r.2 {
            old(footnotes)@.push(final(footnotes)@.last())
        } else {
            old(footnotes)@
        },
        r.2 ==> final(footnotes)@.last().start == pos + 4 && fn_def_line(
            s@,
            pos as int,
            e as int,
            final(footnotes)@.last().end(),
        ),
{
    let mut head = false;
    let mut key = false;
    let mut note = false;
    if pos < e && s[pos] == 0x2a {
        let k = count_stars(s, pos, e);
        if pos + k < e && s[pos + k] == 0x20 {
            let t = parse_title(s, pos, e, config);
            proof {
                if t.level < k {
                    assert(s@[pos + t.level] == 0x2au8);
                }
                if t.level > k {
                    assert(s@[pos + k] == 0x2au8);
                }
                assert(headline_at(s@, pos as int, e as int, k as int));
                assert(title_ok(s@, pos as int, e as int, |w: Seq<u8>| default_keyword(w), t));
                assert(line_is(s@, pos as int, e as int, 0));
            }
            headlines.push(t);
            head = true;
        } else {
            proof {
                assert forall|k2: int| !headline_at(s@, pos as int, e as int, k2) by {
                    if headline_at(s@, pos as int, e as int, k2) {
                        if k2 < k {
                            assert(s@[pos + k2] == 0x2au8);
                        } else if k2 > k {
                            assert(s@[pos + k] == 0x2au8);
                        }
                    }
                }
                assert(!line_is(s@, pos as int, e as int, 0));
            }
        }
    } else if pos < e && s[pos] == 0x23 {
        match parse_keyword(s, pos, e) {
            Some(kw) => {
                keywords.push(kw);
                key = true;
                assert(line_is(s@, pos as int, e as int, 1));
            },
            None => {
                assert(!line_is(s@, pos as int, e as int, 1));
            },
        }
    } else if pos < e && s[pos] == 0x5b {
        match parse_fn_def(s, pos, e) {
            Some(l) => {
                footnotes.push(l);
                note = true;
                assert(line_is(s@, pos as int, e as int, 2));
            },
            None => {
                assert(!line_is(s@, pos as int, e as int, 2));
            },
        }
    }
    proof {
        if line_is(s@, pos as int, e as int, 0) {
            let k2 = choose|k2: int| #[trigger] headline_at(s@, pos as int, e as int, k2);
            assert(s@[pos as int] == 0x2au8);
        }
        if line_is(s@, pos as int, e as int, 1) {
            let c = choose|c: int| #[trigger] keyword_line(s@, pos as int, e as int, c);
            assert(s@[pos as int] == 0x23u8);
        }
        if line_is(s@, pos as int, e as int, 2) {
            let c = choose|c: int| #[trigger] fn_def_line(s@, pos as int, e as int, c);
            assert(s@[pos as int] == 0x5bu8);
        }
    }
    (head, key, note)
}

/// Scans the lines of `src` for headlines (stars, then a space), keyword
/// lines `#+KEY: VALUE` and footnote definitions `[fn:LABEL]`.
pub fn metadata(src: &str) -> (r: (Vec<Title>, Vec<Keyword>, Vec<Span>))
    ensures
        headlines_ok(src.spec_bytes(), r.0@),
        keywords_ok(src.spec_bytes(), r.1@),
        footnotes_ok(src.spec_bytes(), r.2@),
{
    let s = src.as_bytes();
    let n = s.len();
    let config = ParseConfig::default();
    assert forall|w: Seq<u8>| config.has_keyword(w) == default_keyword(w) by {
        if w == "TODO".spec_bytes() {
            assert(w == encode_utf8(config.todo_keywords@[0]@));
        }
        if w == "DONE".spec_bytes() {
            assert(w == encode_utf8(config.done_keywords@[0]@));
        }
    }
    let mut headlines: Vec<Title> = Vec::new();
    let mut keywords: Vec<Keyword> = Vec::new();
    let mut footnotes: Vec<Span> = Vec::new();
    let ghost all = lines_from(s@, 0);
    let ghost gh: Seq<(int, int)> = Seq::empty();
    let ghost gk: Seq<(int, int)> = Seq::empty();
    let ghost gf: Seq<(int, int)> = Seq::empty();
    let mut pos: usize = 0;
    while pos < n
        invariant
            pos <= n == s@.len(),
            s@ == src.spec_bytes(),
            all == lines_from(s@, 0),
            select(s@, all, 0) == gh + select(s@, lines_from(s@, pos as int), 0),
            select(s@, all, 1) == gk + select(s@, lines_from(s@, pos as int), 1),
            select(s@, all, 2) == gf + select(s@, lines_from(s@, pos as int), 2),
            headlines@.len() == gh.len(),
            forall|i: int|
                0 <= i < gh.len() ==> headline_at(s@, gh[i].0, gh[i].1, (#[trigger] headlines@[i]).level as int)
                    && headlines@[i].within(s@.len()) && title_ok(
                    s@,
                    gh[i].0,
                    gh[i].1,
                    |w: Seq<u8>| default_keyword(w),
                    headlines@[i],
                ),
            forall|w: Seq<u8>| config.has_keyword(w) == default_keyword(w),
            keywords@.len() == gk.len(),
            forall|i: int| 0 <= i < gk.len() ==> keyword_of(s@, gk[i].0, gk[i].1, #[trigger] keywords@[i]),
            footnotes@.len() == gf.len(),
            forall|i: int|
                0 <= i < gf.len() ==> (#[trigger] footnotes@[i]).start == gf[i].0 + 4 && fn_def_line(
                    s@,
                    gf[i].0,
                    gf[i].1,
                    footnotes@[i].end(),
                ),
        decreases n - pos,
    {
        let nl = find_byte(s, 0x0a, pos, n);
        let next = if nl < n {
            nl + 1
        } else {
            n
        };
        let e = if nl > pos && s[nl - 1] == 0x0d {
            nl - 1
        } else {
            nl
        };
        let ghost line = (pos as int, e as int);
        proof {
            lemma_next_newline(s@, pos as int, nl as int);
            assert(lines_from(s@, pos as int) == seq![line] + lines_from(s@, nl + 1));
            assert(lines_from(s@, nl + 1) == lines_from(s@, next as int));
            lemma_select_cons(s@, line, lines_from(s@, next as int), 0);
            lemma_select_cons(s@, line, lines_from(s@, next as int), 1);
            lemma_select_cons(s@, line, lines_from(s@, next as int), 2);
        }
        let (head, key, note) = scan_line(s, pos, e, &config, &mut headlines, &mut keywords, &mut footnotes);
        proof {
            if head {
                gh = gh.push(line);
            }
            if key {
                gk = gk.push(line);
            }
            if note {
                gf = gf.push(line);
            }
            assert(select(s@, all, 0) == gh + select(s@, lines_from(s@, next as int), 0));
            assert(select(s@, all, 1) == gk + select(s@, lines_from(s@, next as int), 1));
            assert(select(s@, all, 2) == gf + select(s@, lines_from(s@, next as int), 2));
        }
        pos = next;
    }
    proof {
        assert(lines_from(s@, n as int) =~= Seq::empty());
        assert(select(s@, Seq::<(int, int)>::empty(), 0) =~= Seq::empty());
        assert(select(s@, Seq::<(int, int)>::empty(), 1) =~= Seq::empty());
        assert(select(s@, Seq::<(int, int)>::empty(), 2) =~= Seq::empty());
        assert(gh + Seq::<(int, int)>::empty() =~= gh);
        assert(gk + Seq::<(int, int)>::empty() =~= gk);
        assert(gf + Seq::<(int, int)>::empty() =~= gf);
    }
    (headlines, keywords, footnotes)
}

/// The headline lists that `headlines_ok` allows for one input agree in
/// every field: so `toc(src)` and `metadata(src).0` agree, and so do two
/// calls on one input.
pub proof fn lemma_headlines_determined(s: Seq<u8>, a: Seq<Title>, b: Seq<Title>)
    requires
        headlines_ok(s, a),
        headlines_ok(s, b),
    ensures
        a.len() == b.len(),
        forall|i: int|
            0 <= i < a.len() ==> (#[trigger] a[i]).level == b[i].level && a[i].keyword
                == b[i].keyword && a[i].priority == b[i].priority && a[i].tags@ == b[i].tags@
                && a[i].raw == b[i].raw,
{
    let ls = select(s, lines_from(s, 0), 0);
    assert forall|i: int| 0 <= i < a.len() implies (#[trigger] a[i]).level == b[i].level
        && a[i].keyword == b[i].keyword && a[i].priority == b[i].priority && a[i].tags@
        == b[i].tags@ && a[i].raw == b[i].raw by {
        assert(title_ok(s, ls[i].0, ls[i].1, |w: Seq<u8>| default_keyword(w), a[i]));
        assert(title_ok(s, ls[i].0, ls[i].1, |w: Seq<u8>| default_keyword(w), b[i]));
    }
}

/// The headlines of `src`, in order.
pub fn toc(src: &str) -> (r: Vec<Title>)
    ensures
        headlines_ok(src.spec_bytes(), r@),
{
    metadata(src).0
}

/// The `#+KEY: VALUE` lines of `src`, in order.
pub fn keywords(src: &str) -> (r: Vec<Keyword>)
    ensures
        keywords_ok(src.spec_bytes(), r@),
{
    metadata(src).1
}

/// The labels of the footnote definitions of `src`, in order.
pub fn fn_def(src: &str) -> (r: Vec<Span>)
    ensures
        footnotes_ok(src.spec_bytes(), r@),
{
    metadata(src).2
}

} // verus!
