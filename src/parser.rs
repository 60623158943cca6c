use vstd::prelude::*;
use vstd::string::StringSliceAdditionalSpecFns;

use crate::builder::Builder;
use crate::document::Document;
use crate::elements::{Block, Element};
use crate::inline::parse_inline;
use crate::objects::{parse_clock, parse_planning};
use crate::lines::{
    block_begin, drawer_begin, dyn_begin, is_block_end, is_container_end, is_rule, parse_bullet,
    parse_fn_def, parse_keyword, starts_ignoring_case_exec,
};
use crate::scan::{find_byte, is_space, skip_spaces, trim_end};
use crate::span::Span;
use crate::title::{count_stars, parse_title, ParseConfig};

verus! {

/// What is open while the lines are read.
struct Assembly {
    b: Builder,
    /// Levels of the open headlines, outermost first.
    levels: Vec<usize>,
    /// Indentation of the open lists, outermost first; each has an open item.
    lists: Vec<usize>,
    /// A section is the innermost open container outside lists.
    section: bool,
    /// Lines `para_start .. para_end` wait to be emitted as one paragraph.
    in_para: bool,
    para_start: usize,
    para_end: usize,
}

impl Assembly {
    spec fn inv(&self, n: nat) -> bool {
        &&& self.b.inv()
        &&& self.b.depth() >= 1
        &&& self.b.src_len() == n
        &&& self.para_start <= self.para_end <= n
    }

    /// Emits the waiting paragraph, if any.
    fn flush(&mut self, s: &[u8])
        requires
            old(self).inv(s@.len()),
        ensures
            final(self).inv(s@.len()),
            !final(self).in_para,
            final(self).lists@ == old(self).lists@,
            !old(self).in_para ==> final(self).b == old(self).b,
            final(self).b.size() >= old(self).b.size(),
            old(self).in_para ==> final(self).b.size() > 1,
    {
        if self.in_para {
            if self.b.open(Element::Paragraph) {
                parse_inline(s, self.para_start, self.para_end, &mut self.b);
                self.b.close();
            }
            self.in_para = false;
        }
    }

    /// Adds line `from..to` to the waiting paragraph, or starts one.
    fn add_line(&mut self, s: &[u8], from: usize, to: usize)
        requires
            old(self).inv(s@.len()),
            from <= to <= s@.len(),
        ensures
            final(self).inv(s@.len()),
            final(self).lists@ == old(self).lists@,
            final(self).b == old(self).b,
            final(self).in_para,
    {
        if !self.in_para {
            self.in_para = true;
            self.para_start = from;
        }
        self.para_end = if to < self.para_start {
            self.para_start
        } else {
            to
        };
    }

    /// Opens a section unless one is open or a list is.
    fn enter_section(&mut self)
        requires
            old(self).b.inv(),
            old(self).b.depth() >= 1,
        ensures
            final(self).b.inv(),
            final(self).b.depth() >= 1,
            final(self).b.src_len() == old(self).b.src_len(),
            final(self).lists@ == old(self).lists@,
            final(self).in_para == old(self).in_para,
            final(self).para_start == old(self).para_start,
            final(self).para_end == old(self).para_end,
            final(self).b.size() >= old(self).b.size(),
    {
        if !self.section && self.lists.len() == 0 {
            self.section = self.b.open(Element::Section);
        }
    }

    /// Closes the open lists indented by at least `indent`, or by more when
    /// `strictly`.
    fn close_lists(&mut self, s: &[u8], indent: usize, strictly: bool)
        requires
            old(self).inv(s@.len()),
        ensures
            final(self).inv(s@.len()),
            final(self).b.size() >= old(self).b.size(),
            old(self).in_para ==> final(self).in_para || final(self).b.size() > 1,
    {
        while self.lists.len() > 0 && (self.lists[self.lists.len() - 1] > indent || (!strictly
            && self.lists[self.lists.len() - 1] == indent))
            invariant
                self.inv(s@.len()),
                self.b.size() >= old(self).b.size(),
                old(self).in_para ==> self.in_para || self.b.size() > 1,
            decreases self.lists@.len(),
        {
            self.flush(s);
            self.b.close();
            self.b.close();
            self.lists.pop();
        }
    }

    /// Reads the line at `pos`, ending by `limit`; returns where the next line
    /// starts and whether this one was a headline.
    #[verifier::rlimit(100)]
    fn take_line(
        &mut self,
        s: &[u8],
        pos: usize,
        limit: usize,
        config: &ParseConfig,
        after_title: bool,
        pending: &mut Vec<(usize, usize)>,
    ) -> (r: (usize, bool))
        requires
            old(self).inv(s@.len()),
            pos < limit <= s@.len(),
            limit == if old(pending)@.len() > 0 {
                old(pending)@.last().0
            } else {
                s@.len() as usize
            },
            old(pending)@.len() > 0 ==> old(self).b.size() > 1,
            forall|j: int| 0 <= j < old(pending)@.len() ==> pos <= (#[trigger] old(pending)@[j]).0 < old(pending)@[j].1 <= s@.len(),
            forall|j: int, k: int| 0 <= j < k < old(pending)@.len() ==> (#[trigger] old(pending)@[k]).1 <= (#[trigger] old(pending)@[j]).0,
        ensures
            final(self).inv(s@.len()),
            pos < r.0 <= limit,
            final(self).b.size() >= old(self).b.size(),
            final(pending)@.len() > 0 ==> final(self).b.size() > 1,
            forall|j: int| 0 <= j < final(pending)@.len() ==> r.0 <= (#[trigger] final(pending)@[j]).0 < final(pending)@[j].1 <= s@.len(),
            forall|j: int, k: int| 0 <= j < k < final(pending)@.len() ==> (#[trigger] final(pending)@[k]).1 <= (#[trigger] final(pending)@[j]).0,
            (exists|j: int| pos <= j < r.0 && !is_space(#[trigger] s@[j])) ==> final(self).b.size() > 1 || final(self).in_para,
            old(self).in_para ==> final(self).in_para || final(self).b.size() > 1,
    {
        let n = s.len();
    let e = find_byte(s, 0x0a, pos, limit);
    let mut next = if e < limit {
        e + 1
    } else {
        limit
    };
    let stars = count_stars(s, pos, e);
    let c = skip_spaces(s, pos, e);
    let le = trim_end(s, c, e);
    let bullet = parse_bullet(s, c, le);
    let planning = if after_title {
        parse_planning(s, c, le)
    } else {
        None
    };
    let mut title_next = false;
    if planning.is_some() {
        self.b.leaf(Element::Planning(planning.unwrap()));
    } else if stars > 0 && pos + stars < e && s[pos + stars] == 0x20 {
        self.close_lists(s, 0, false);
        self.flush(s);
        if self.section {
            self.b.close();
            self.section = false;
        }
        while self.levels.len() > 0 && self.levels[self.levels.len() - 1] >= stars
            invariant
                self.inv(n as nat),
                n == s@.len(),
                self.b.size() >= old(self).b.size(),
                old(self).in_para ==> self.in_para || self.b.size() > 1,
            decreases self.levels@.len(),
        {
            self.b.close();
            self.levels.pop();
        }
        title_next = true;
        if self.b.open(Element::Headline) {
            self.levels.push(stars);
            let t = parse_title(s, pos, e, config);
            let raw = t.raw;
            if self.b.open(Element::Title(t)) {
                parse_inline(s, raw.start, raw.start + raw.len, &mut self.b);
                self.b.close();
            }
        }
    } else if c == e {
        self.flush(s);
    } else if bullet.is_some() {
        let (be, ordered) = bullet.unwrap();
        let indent = c - pos;
        self.close_lists(s, indent, true);
        self.flush(s);
        if self.lists.len() > 0 && self.lists[self.lists.len() - 1] == indent {
            self.b.close();
        } else {
            self.enter_section();
            if self.b.open(Element::List { ordered }) {
                self.lists.push(indent);
            }
        }
        self.b.open(Element::ListItem { bullet: Span::range(c, be) });
        let t = skip_spaces(s, be, le);
        if t < le {
            self.add_line(s, t, le);
        }
    } else {
        let indent = c - pos;
        self.close_lists(s, indent, false);
        if self.lists.len() > 0 {
            self.add_line(s, c, le);
        } else {
            let block = block_begin(s, c, le);
            let drawer = drawer_begin(s, c, le);
            let dynamic = dyn_begin(s, c, le);
            let closing = if drawer.is_some() {
                find_container_end(s, next, limit, true)
            } else if dynamic.is_some() {
                find_container_end(s, next, limit, false)
            } else {
                None
            };
            let kw = parse_keyword(s, c, le);
            let fn_label = if c == pos {
                parse_fn_def(s, c, le)
            } else {
                None
            };
            let starts_colon = s[c] == 0x3a && (c + 1 == le || s[c + 1] == 0x20);
            let starts_hash = s[c] == 0x23 && (c + 1 == le || s[c + 1] == 0x20);
            let rule = is_rule(s, c, le);
            let clock = parse_clock(s, c, le);
            let end = match block {
                Some((name, _)) => find_block_end(s, next, name, limit),
                None => None,
            };
            if closing.is_some() {
                let (p, after) = closing.unwrap();
                self.flush(s);
                self.enter_section();
                match dynamic {
                    Some((name, args)) => {
                        if self.b.open(Element::DynBlock { name, args }) {
                            pending.push((p, after));
                        }
                    },
                    None => {
                        let body_end = if p > next {
                            p - 1
                        } else {
                            next
                        };
                        let contents = Span::range(next, body_end);
                        self.b.leaf(Element::Drawer { name: drawer.unwrap(), contents });
                        next = after;
                    assert(self.b.size() > 1);
                    },
                }
            } else if end.is_some() {
                let (name, args) = block.unwrap();
                let (p, after) = end.unwrap();
                self.flush(s);
                self.enter_section();
                if self.b.open(Element::Block(Block { name, args })) {
                    let body_end = if p > next {
                        p - 1
                    } else {
                        next
                    };
                    if next < body_end {
                        self.b.leaf(Element::Text { value: Span::range(next, body_end) });
                    }
                    self.b.close();
                }
                next = after;
                    assert(self.b.size() > 1);
            } else if fn_label.is_some() {
                self.flush(s);
                self.enter_section();
                let label = fn_label.unwrap();
                let t = skip_spaces(s, label.start + label.len + 1, le);
                self.b.leaf(Element::FnDef { label, contents: Span::range(t, le) });
            } else if clock.is_some() {
                self.flush(s);
                self.enter_section();
                self.b.leaf(Element::Clock(clock.unwrap()));
            } else if kw.is_some() || starts_colon || starts_hash || rule {
                self.flush(s);
                self.enter_section();
                let value = Span::range(if le - c >= 2 { c + 2 } else { le }, le);
                match kw {
                    Some(k) => {
                        let call: Vec<u8> = vec![0x43u8, 0x41, 0x4c, 0x4c];
                        if k.key.len == 4 && starts_ignoring_case_exec(s, k.key.start, k.key.start + 4, &call) {
                            self.b.leaf(Element::BabelCall { value: k.value });
                        } else {
                            self.b.leaf(Element::Keyword(k));
                        }
                    },
                    None => {
                        if rule {
                            self.b.leaf(Element::Rule);
                        } else if starts_colon {
                            self.b.leaf(Element::FixedWidth { value });
                        } else {
                            self.b.leaf(Element::Comment { value });
                        }
                    },
                }
            } else {
                if !self.in_para {
                    self.enter_section();
                }
                self.add_line(s, c, le);
            }
        }
    }
        proof {
            if exists|j: int| pos <= j < next && !is_space(#[trigger] s@[j]) {
                if self.b.size() <= 1 {
                    let j = choose|j: int| pos <= j < next && !is_space(#[trigger] s@[j]);
                    assert(j < e);
                    assert(c <= j);
                }
            }
        }
        (next, title_next)
    }
}

/// `s` holds a byte that is not a space.
pub open spec fn has_text(s: Seq<u8>) -> bool {
    exists|j: int| 0 <= j < s.len() && !is_space(#[trigger] s[j])
}

/// Parses `src` with the default configuration.
pub fn parse(src: &str) -> (r: Document)
    ensures
        r.wf(),
        r.src_len == src.spec_bytes().len(),
        src.spec_bytes().len() == 0 ==> r.elements@.len() == 1,
        has_text(src.spec_bytes()) ==> r.elements@.len() > 1,
{
    let config = ParseConfig::default();
    parse_with_config(src, &config)
}

/// Position of the line that ends the block named `name`, searching the lines
/// from `from`, and the position after that line.
fn find_block_end(s: &[u8], from: usize, name: Span, limit: usize) -> (r: Option<(usize, usize)>)
    requires
        from <= limit <= s@.len(),
        name.within(s@.len()),
    ensures
        r matches Some((p, next)) ==> from <= p < next <= limit,
{
    let n = limit;
    let mut p = from;
    while p < n
        invariant
            from <= p <= n <= s@.len(),
            n == limit,
            name.within(s@.len()),
        decreases n - p,
    {
        let e = find_byte(s, 0x0a, p, n);
        let next = if e < n {
            e + 1
        } else {
            n
        };
        let c = skip_spaces(s, p, e);
        let le = trim_end(s, c, e);
        if is_block_end(s, c, le, name) {
            return Some((p, next));
        }
        if next == p {
            return None;
        }
        p = next;
    }
    None
}

/// Position of the line that closes a drawer (or a dynamic block) opened
/// before `from`, and the position after it; the search stops at a headline.
fn find_container_end(s: &[u8], from: usize, limit: usize, drawer: bool) -> (r: Option<(usize, usize)>)
    requires
        from <= limit <= s@.len(),
    ensures
        r matches Some((p, next)) ==> from <= p < next <= limit,
{
    let mut p = from;
    while p < limit
        invariant
            from <= p <= limit <= s@.len(),
        decreases limit - p,
    {
        let e = find_byte(s, 0x0a, p, limit);
        let next = if e < limit {
            e + 1
        } else {
            limit
        };
        let stars = count_stars(s, p, e);
        if stars > 0 && p + stars < e && s[p + stars] == 0x20 {
            return None;
        }
        let c = skip_spaces(s, p, e);
        let le = trim_end(s, c, e);
        if is_container_end(s, c, le, drawer) {
            return Some((p, next));
        }
        if next == p {
            return None;
        }
        p = next;
    }
    None
}

/// Parses `src` into a document tree. Every input is accepted: what no
/// recognizer matches becomes paragraph text.
#[verifier::rlimit(100)]
pub fn parse_with_config(src: &str, config: &ParseConfig) -> (r: Document)
    ensures
        r.wf(),
        r.src_len == src.spec_bytes().len(),
        src.spec_bytes().len() == 0 ==> r.elements@.len() == 1,
        has_text(src.spec_bytes()) ==> r.elements@.len() > 1,
{
    let s = src.as_bytes();
    let n = s.len();
    let mut a = Assembly {
        b: Builder::new(n),
        levels: Vec::new(),
        lists: Vec::new(),
        section: false,
        in_para: false,
        para_start: 0,
        para_end: 0,
    };
    // Open dynamic blocks: where their closing line starts, and
    // where the line after it starts.
    let mut pending: Vec<(usize, usize)> = Vec::new();
    // The previous line was a headline.
    let mut after_title = false;
    let mut pos: usize = 0;
    while pos < n
        invariant
            a.inv(n as nat),
            pos == 0 ==> !a.in_para && a.b.size() == 1,
            (exists|j: int| 0 <= j < pos && !is_space(#[trigger] s@[j])) ==> a.b.size() > 1 || a.in_para,
            pending@.len() > 0 ==> a.b.size() > 1,
            n == s@.len(),
            pos <= n,
            forall|j: int| 0 <= j < pending@.len() ==> pos <= (#[trigger] pending@[j]).0 < pending@[j].1 <= n,
            forall|j: int, k: int| 0 <= j < k < pending@.len() ==> (#[trigger] pending@[k]).1 <= (#[trigger] pending@[j]).0,
        decreases n - pos,
    {
        let limit = if pending.len() > 0 {
            pending[pending.len() - 1].0
        } else {
            n
        };
        if pos == limit {
            a.close_lists(s, 0, false);
            a.flush(s);
            a.b.close();
            let (_, after) = pending.pop().unwrap();
            pos = after;
            continue;
        }
        let (next, title) = a.take_line(s, pos, limit, config, after_title, &mut pending);
        after_title = title;
        pos = next;
    }
    a.flush(s);
    a.b.finish()
}

} // verus!
