use vstd::prelude::*;

use crate::span::Span;

verus! {

/// A headline's title line: `*** TODO [#A] text :tag1:tag2:`.
#[derive(Clone, Debug, PartialEq, Eq)]
pub struct Title {
    /// Number of leading stars.
    pub level: usize,
    /// The todo keyword, when the first word is one of the configured keywords.
    pub keyword: Option<Span>,
    /// The priority cookie's letter (`[#A]`).
    pub priority: Option<u8>,
    /// Each tag of the trailing `:a:b:` group.
    pub tags: Vec<Span>,
    /// The title text, without keyword, priority and tags.
    pub raw: Span,
}

/// A `#+KEY: VALUE` line.
#[derive(Clone, Copy, Debug, PartialEq, Eq, Structural)]
pub struct Keyword {
    pub key: Span,
    pub value: Span,
}

/// A `[[path][description]]` or `[[path]]` link.
#[derive(Clone, Copy, Debug, PartialEq, Eq, Structural)]
pub struct Link {
    pub path: Span,
    pub desc: Option<Span>,
}

/// A `#+BEGIN_NAME ARGS` ... `#+END_NAME` block; its body is taken verbatim.
#[derive(Clone, Copy, Debug, PartialEq, Eq, Structural)]
pub struct Block {
    pub name: Span,
    pub args: Span,
}

/// A timestamp `<2003-09-16 Tue 09:39>`; square brackets make it inactive.
#[derive(Clone, Copy, Debug, PartialEq, Eq, Structural)]
pub struct Timestamp {
    pub active: bool,
    pub year: u16,
    pub month: u8,
    pub day: u8,
    pub dayname: Option<Span>,
    pub hour: Option<u8>,
    pub minute: Option<u8>,
    /// The whole timestamp, brackets included.
    pub raw: Span,
}

/// A macro call `{{{name(args)}}}` or `{{{name}}}`.
#[derive(Clone, Copy, Debug, PartialEq, Eq, Structural)]
pub struct Macros {
    pub name: Span,
    pub args: Option<Span>,
}

/// The planning line under a headline.
#[derive(Clone, Copy, Debug, PartialEq, Eq, Structural)]
pub struct Planning {
    pub deadline: Option<Timestamp>,
    pub scheduled: Option<Timestamp>,
    pub closed: Option<Timestamp>,
}

/// A clock line `CLOCK: [start]--[end] =>  1:00`, or a running `CLOCK: [start]`.
#[derive(Clone, Copy, Debug, PartialEq, Eq, Structural)]
pub struct Clock {
    pub start: Timestamp,
    pub end: Option<Timestamp>,
    pub duration: Option<Span>,
}

/// One recognized construct of the document.
#[derive(Clone, Debug, PartialEq, Eq)]
pub enum Element {
    Document,
    Section,
    Headline,
    Title(Title),
    Paragraph,
    Bold,
    Italic,
    Strike,
    Underline,
    Keyword(Keyword),
    /// A `#+CALL: name(args)` line; `value` is what follows the colon.
    BabelCall { value: Span },
    /// A footnote definition `[fn:LABEL] text` at the start of a line.
    FnDef { label: Span, contents: Span },
    /// A radio target `<<<target>>>`.
    RadioTarget { target: Span },
    Block(Block),
    DynBlock { name: Span, args: Span },
    /// A drawer `:NAME:` ... `:END:`; its body is kept as a view.
    Drawer { name: Span, contents: Span },
    List { ordered: bool },
    ListItem { bullet: Span },
    Link(Link),
    FnRef { label: Span },
    Timestamp(Timestamp),
    Target { target: Span },
    Macros(Macros),
    Cookie { value: Span },
    InlineSrc { lang: Span, options: Option<Span>, body: Span },
    InlineCall { name: Span, args: Span },
    Snippet { name: Span, value: Span },
    Planning(Planning),
    Clock(Clock),
    Rule,
    Text { value: Span },
    Verbatim { value: Span },
    Code { value: Span },
    Comment { value: Span },
    FixedWidth { value: Span },
}

impl Timestamp {
    pub open spec fn within(&self, n: nat) -> bool {
        self.raw.within(n) && (self.dayname matches Some(d) ==> d.within(n))
    }
}

impl Title {
    pub open spec fn within(&self, n: nat) -> bool {
        &&& self.raw.within(n)
        &&& (self.keyword matches Some(k) ==> k.within(n))
        &&& forall|t: int| 0 <= t < self.tags@.len() ==> (#[trigger] self.tags@[t]).within(n)
    }
}

impl Element {
    /// The fixed classification of kinds that may own children.
    pub open spec fn container(&self) -> bool {
        match self {
            Element::Document | Element::Section | Element::Headline | Element::Title(_)
            | Element::Paragraph | Element::Bold | Element::Italic | Element::Strike
            | Element::Underline | Element::Block(_) | Element::DynBlock { .. }
            | Element::List { .. }
            | Element::ListItem { .. } => true,
            _ => false,
        }
    }

    /// Every view held by the element lies within a buffer of `n` bytes.
    pub open spec fn within(&self, n: nat) -> bool {
        match self {
            Element::Title(t) => t.within(n),
            Element::Keyword(k) => k.key.within(n) && k.value.within(n),
            Element::BabelCall { value } => value.within(n),
            Element::FnDef { label, contents } => label.within(n) && contents.within(n),
            Element::RadioTarget { target } => target.within(n),
            Element::Block(b) => b.name.within(n) && b.args.within(n),
            Element::DynBlock { name, args } => name.within(n) && args.within(n),
            Element::Drawer { name, contents } => name.within(n) && contents.within(n),
            Element::ListItem { bullet } => bullet.within(n),
            Element::Link(l) => l.path.within(n) && (l.desc matches Some(d) ==> d.within(n)),
            Element::FnRef { label } => label.within(n),
            Element::Timestamp(t) => t.within(n),
            Element::Target { target } => target.within(n),
            Element::Macros(m) => m.name.within(n) && (m.args matches Some(a) ==> a.within(n)),
            Element::Cookie { value } => value.within(n),
            Element::InlineSrc { lang, options, body } => lang.within(n) && body.within(n) && (
            options matches Some(o) ==> o.within(n)),
            Element::InlineCall { name, args } => name.within(n) && args.within(n),
            Element::Snippet { name, value } => name.within(n) && value.within(n),
            Element::Planning(p) => (p.deadline matches Some(t) ==> t.within(n)) && (
            p.scheduled matches Some(t) ==> t.within(n)) && (p.closed matches Some(t) ==> t.within(
                n,
            )),
            Element::Clock(c) => c.start.within(n) && (c.end matches Some(t) ==> t.within(n)) && (
            c.duration matches Some(d) ==> d.within(n)),
            Element::Text { value } => value.within(n),
            Element::Verbatim { value } => value.within(n),
            Element::Code { value } => value.within(n),
            Element::Comment { value } => value.within(n),
            Element::FixedWidth { value } => value.within(n),
            _ => true,
        }
    }

    pub fn is_container(&self) -> (r: bool)
        ensures
            r == self.container(),
    {
        match self {
            Element::Document | Element::Section | Element::Headline | Element::Title(_)
            | Element::Paragraph | Element::Bold | Element::Italic | Element::Strike
            | Element::Underline | Element::Block(_) | Element::DynBlock { .. }
            | Element::List { .. }
            | Element::ListItem { .. } => true,
            _ => false,
        }
    }
}

} // verus!
