use vstd::prelude::*;

use vstd::utf8::encode_utf8;

use crate::elements::Title;
use crate::scan::{
    bytes_eq, find_byte, first_at, is_space, is_space_byte, skip_sp, skip_spaces, trim_end, trim_sp,
};
use crate::span::Span;

verus! {

/// Options of a parse.
pub struct ParseConfig {
    /// Keywords of headlines that are still to be done.
    pub todo_keywords: Vec<String>,
    /// Keywords of finished headlines.
    pub done_keywords: Vec<String>,
}

impl ParseConfig {
    /// `s[a..b]` is one of the configured keywords.
    pub open spec fn is_keyword(&self, s: Seq<u8>, a: int, b: int) -> bool {
        (exists|x: int|
            0 <= x < self.todo_keywords@.len() && s.subrange(a, b) == encode_utf8(
                #[trigger] self.todo_keywords@[x]@,
            )) || (exists|x: int|
            0 <= x < self.done_keywords@.len() && s.subrange(a, b) == encode_utf8(
                #[trigger] self.done_keywords@[x]@,
            ))
    }
}

/// Why a configuration was refused.
#[derive(Clone, Copy, Debug, PartialEq, Eq, Structural)]
pub enum ConfigError {
    /// A keyword is the empty string.
    EmptyKeyword,
    /// A keyword holds a space, so it could never be a headline's first word.
    KeywordWithSpace,
}

/// Some keyword of `ws` is empty.
pub open spec fn any_empty(ws: Seq<String>) -> bool {
    exists|x: int| 0 <= x < ws.len() && encode_utf8((#[trigger] ws[x])@).len() == 0
}

/// `w` holds a space.
pub open spec fn has_space(w: Seq<u8>) -> bool {
    exists|j: int| 0 <= j < w.len() && is_space(#[trigger] w[j])
}

/// Some keyword of `ws` holds a space.
pub open spec fn any_spaced(ws: Seq<String>) -> bool {
    exists|x: int| 0 <= x < ws.len() && has_space(encode_utf8((#[trigger] ws[x])@))
}

fn check_keywords(ws: &Vec<String>) -> (r: (bool, bool))
    ensures
        r.0 == any_empty(ws@),
        r.1 == any_spaced(ws@),
{
    let mut empty = false;
    let mut spaced = false;
    let mut x: usize = 0;
    while x < ws.len()
        invariant
            x <= ws@.len(),
            empty == exists|y: int| 0 <= y < x && encode_utf8((#[trigger] ws@[y])@).len() == 0,
            spaced == exists|y: int| 0 <= y < x && has_space(encode_utf8((#[trigger] ws@[y])@)),
        decreases ws@.len() - x,
    {
        let w = ws[x].as_str().as_bytes();
        if w.len() == 0 {
            empty = true;
        }
        let mut j: usize = 0;
        let mut found = false;
        while j < w.len()
            invariant
                j <= w@.len(),
                found == exists|k: int| 0 <= k < j && is_space(#[trigger] w@[k]),
            decreases w@.len() - j,
        {
            if is_space_byte(w[j]) {
                found = true;
            }
            j = j + 1;
        }
        if found {
            spaced = true;
        }
        proof {
            assert(w@ == encode_utf8(ws@[x as int]@));
            assert(found == has_space(w@));
        }
        x = x + 1;
    }
    (empty, spaced)
}

impl ParseConfig {
    /// A configuration with the given keywords. Every keyword must be
    /// nonempty and hold no space.
    pub fn new(todo_keywords: Vec<String>, done_keywords: Vec<String>) -> (r: Result<
        ParseConfig,
        ConfigError,
    >)
        ensures
            r matches Ok(c) ==> c.todo_keywords@ == todo_keywords@ && c.done_keywords@
                == done_keywords@,
            r is Ok <==> !any_empty(todo_keywords@) && !any_empty(done_keywords@) && !any_spaced(
                todo_keywords@,
            ) && !any_spaced(done_keywords@),
            r == Err::<ParseConfig, ConfigError>(ConfigError::EmptyKeyword) <==> any_empty(
                todo_keywords@,
            ) || any_empty(done_keywords@),
    {
        let (e1, s1) = check_keywords(&todo_keywords);
        let (e2, s2) = check_keywords(&done_keywords);
        if e1 || e2 {
            Err(ConfigError::EmptyKeyword)
        } else if s1 || s2 {
            Err(ConfigError::KeywordWithSpace)
        } else {
            Ok(ParseConfig { todo_keywords, done_keywords })
        }
    }
}

impl ParseConfig {
    /// `w` is one of the configured keywords.
    pub open spec fn has_keyword(&self, w: Seq<u8>) -> bool {
        (exists|x: int|
            0 <= x < self.todo_keywords@.len() && w == encode_utf8(
                #[trigger] self.todo_keywords@[x]@,
            )) || (exists|x: int|
            0 <= x < self.done_keywords@.len() && w == encode_utf8(
                #[trigger] self.done_keywords@[x]@,
            ))
    }
}

impl Default for ParseConfig {
    /// `TODO` to be done, `DONE` when finished.
    fn default() -> (r: ParseConfig)
        ensures
            r.todo_keywords@.len() == 1,
            r.todo_keywords@[0]@ == "TODO"@,
            r.done_keywords@.len() == 1,
            r.done_keywords@[0]@ == "DONE"@,
    {
        let mut todo_keywords: Vec<String> = Vec::new();
        todo_keywords.push("TODO".to_owned());
        let mut done_keywords: Vec<String> = Vec::new();
        done_keywords.push("DONE".to_owned());
        ParseConfig { todo_keywords, done_keywords }
    }
}

fn in_list(s: &[u8], a: usize, b: usize, list: &Vec<String>) -> (r: bool)
    requires
        a <= b <= s@.len(),
    ensures
        r == exists|x: int|
            0 <= x < list@.len() && s@.subrange(a as int, b as int) == encode_utf8(#[trigger] list@[x]@),
{
    let mut x: usize = 0;
    while x < list.len()
        invariant
            a <= b <= s@.len(),
            x <= list@.len(),
            forall|y: int|
                0 <= y < x ==> s@.subrange(a as int, b as int) != encode_utf8(#[trigger] list@[y]@),
        decreases list@.len() - x,
    {
        let w = list[x].as_str().as_bytes();
        if bytes_eq(s, a, b, w) {
            return true;
        }
        x = x + 1;
    }
    false
}

/// Number of `*` at the start of `s[a..b]`.
pub open spec fn stars_from(s: Seq<u8>, a: int, b: int) -> int
    decreases b - a,
{
    if a >= b || s[a] != 0x2au8 {
        0
    } else {
        1 + stars_from(s, a + 1, b)
    }
}

/// Start of the last word of `s[c..w]`: back from `w` over bytes that are
/// not spaces, not before `c`.
pub open spec fn word_back(s: Seq<u8>, c: int, w: int) -> int
    decreases w - c,
{
    if w <= c || is_space(s[w - 1]) {
        w
    } else {
        word_back(s, c, w - 1)
    }
}

/// The nonempty pieces of `s[i..to]` between colons.
pub open spec fn tags_of(s: Seq<u8>, i: int, to: int) -> Seq<Span>
    decreases to - i,
{
    let j = first_at(s, 0x3au8, i, to);
    if i >= to || j < i {
        Seq::empty()
    } else {
        (if i < j {
            seq![Span { start: i as usize, len: (j - i) as usize }]
        } else {
            Seq::empty()
        }) + if j < to {
            tags_of(s, j + 1, to)
        } else {
            Seq::empty()
        }
    }
}

/// `t` is the title of the headline `s[from..to]` where `kw` tells the todo
/// keywords: `level` stars, then a keyword when the first word is one, then
/// a priority cookie `[#X]`, the title text, and a trailing `:a:b:` group of
/// tags; the title text is what is left, without surrounding spaces.
pub open spec fn title_ok(
    s: Seq<u8>,
    from: int,
    to: int,
    kw: spec_fn(Seq<u8>) -> bool,
    t: Title,
) -> bool {
    let k = stars_from(s, from, to);
    let c0 = skip_sp(s, from + k, to);
    let end = trim_sp(s, c0, to);
    let w = word_back(s, c0, end);
    let tagged = c0 < end && s[end - 1] == 0x3au8 && w + 1 < end && s[w] == 0x3au8;
    let tend = if tagged {
        trim_sp(s, c0, w)
    } else {
        end
    };
    let we = first_at(s, 0x20u8, c0, tend);
    let has_kw = c0 < we && kw(s.subrange(c0, we));
    let c1 = if has_kw {
        skip_sp(s, we, tend)
    } else {
        c0
    };
    let has_pri = tend - c1 >= 4 && s[c1] == 0x5bu8 && s[c1 + 1] == 0x23u8 && s[c1 + 3] == 0x5du8 && (
    c1 + 4 == tend || is_space(s[c1 + 4]));
    let c2 = if has_pri {
        skip_sp(s, c1 + 4, tend)
    } else {
        c1
    };
    &&& t.level == k
    &&& t.tags@ == if tagged {
        tags_of(s, w, end)
    } else {
        Seq::empty()
    }
    &&& t.keyword == if has_kw {
        Some(Span { start: c0 as usize, len: (we - c0) as usize })
    } else {
        None
    }
    &&& t.priority == if has_pri {
        Some(s[c1 + 2])
    } else {
        None
    }
    &&& t.raw == (Span { start: c2 as usize, len: (tend - c2) as usize })
}

/// Number of `*` at the start of `s[from..to]`.
pub fn count_stars(s: &[u8], from: usize, to: usize) -> (r: usize)
    requires
        from <= to <= s@.len(),
    ensures
        from + r <= to,
        forall|j: int| from <= j < from + r ==> s@[j] == 0x2au8,
        from + r < to ==> s@[from + r] != 0x2au8,
        r == stars_from(s@, from as int, to as int),
{
    let mut i = from;
    while i < to && s[i] == 0x2a
        invariant
            from <= i <= to <= s@.len(),
            stars_from(s@, from as int, to as int) == (i - from) + stars_from(s@, i as int, to as int),
            forall|j: int| from <= j < i ==> s@[j] == 0x2au8,
        decreases to - i,
    {
        i = i + 1;
    }
    i - from
}

/// Splits a trailing `:a:b:` group of `s[from..to]` into its tags.
fn split_tags(s: &[u8], from: usize, to: usize) -> (r: Vec<Span>)
    requires
        from <= to <= s@.len(),
    ensures
        forall|t: int|
            0 <= t < r@.len() ==> from <= (#[trigger] r@[t]).start && r@[t].end() <= to && r@[t].len > 0,
        r@ == tags_of(s@, from as int, to as int),
{
    let mut tags: Vec<Span> = Vec::new();
    let mut i = from;
    while i < to
        invariant
            from <= i <= to <= s@.len(),
            forall|t: int|
                0 <= t < tags@.len() ==> from <= (#[trigger] tags@[t]).start && tags@[t].end() <= to
                    && tags@[t].len > 0,
            tags_of(s@, from as int, to as int) == tags@ + tags_of(s@, i as int, to as int),
        decreases to - i,
    {
        let ghost before = tags@;
        let j = find_byte(s, 0x3a, i, to);
        if i < j {
            tags.push(Span::range(i, j));
        }
        let ghost piece = if i < j {
            seq![Span { start: i as usize, len: (j - i) as usize }]
        } else {
            Seq::<Span>::empty()
        };
        assert(tags@ == before + piece);
        i = if j < to {
            j + 1
        } else {
            to
        };
        assert(tags_of(s@, from as int, to as int) == tags@ + tags_of(s@, i as int, to as int)) by {
            assert(before + (piece + tags_of(s@, i as int, to as int)) =~= (before + piece)
                + tags_of(s@, i as int, to as int));
        }
    }
    assert(tags@ + Seq::<Span>::empty() =~= tags@);
    tags
}

/// Recognizes the headline `s[from..to]`: stars, then an optional keyword,
/// an optional `[#X]` priority cookie, the title text and optional tags.
pub fn parse_title(s: &[u8], from: usize, to: usize, config: &ParseConfig) -> (r: Title)
    requires
        from <= to <= s@.len(),
    ensures
        from + r.level <= to,
        forall|j: int| from <= j < from + r.level ==> s@[j] == 0x2au8,
        from + r.level < to ==> s@[from + r.level] != 0x2au8,
        from <= r.raw.start && r.raw.end() <= to,
        r.keyword matches Some(k) ==> from <= k.start && k.end() <= to && config.is_keyword(
            s@,
            k.start as int,
            k.end(),
        ),
        forall|t: int|
            0 <= t < r.tags@.len() ==> from <= (#[trigger] r.tags@[t]).start && r.tags@[t].end()
                <= to,
        r.within(s@.len()),
        title_ok(s@, from as int, to as int, |w: Seq<u8>| config.has_keyword(w), r),
{
    let level = count_stars(s, from, to);
    let mut c = skip_spaces(s, from + level, to);
    let end = trim_end(s, c, to);
    let mut tend = end;
    let mut tags: Vec<Span> = Vec::new();
    if c < end && s[end - 1] == 0x3a {
        let mut w = end;
        while w > c && !is_space_byte(s[w - 1])
            invariant
                c <= w <= end,
                end <= to <= s@.len(),
                word_back(s@, c as int, end as int) == word_back(s@, c as int, w as int),
            decreases w - c,
        {
            w = w - 1;
        }
        if w + 1 < end && s[w] == 0x3a {
            tags = split_tags(s, w, end);
            tend = trim_end(s, c, w);
        }
    }
    let mut keyword: Option<Span> = None;
    let we = find_byte(s, 0x20, c, tend);
    if c < we && (in_list(s, c, we, &config.todo_keywords) || in_list(s, c, we, &config.done_keywords)) {
        keyword = Some(Span::range(c, we));
        c = skip_spaces(s, we, tend);
    }
    let mut priority: Option<u8> = None;
    if tend - c >= 4 && s[c] == 0x5b && s[c + 1] == 0x23 && s[c + 3] == 0x5d && (c + 4 == tend
        || is_space_byte(s[c + 4])) {
        priority = Some(s[c + 2]);
        c = skip_spaces(s, c + 4, tend);
    }
    Title { level, keyword, priority, tags, raw: Span::range(c, tend) }
}

} // verus!
