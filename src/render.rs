use vstd::prelude::*;
use vstd::string::StringSliceAdditionalSpecFns;

use crate::document::{lemma_event_in_range, Document, Event};
use crate::elements::Element;
use crate::span::Span;

verus! {

/// A rendering pass: `start` on entering a node, `end` on leaving a container.
/// An implementation that handles some kinds itself passes the others on to
/// [`DefaultHtmlHandler`].
pub trait HtmlHandler<E> {
    fn start(&mut self, w: &mut Vec<u8>, element: &Element, src: &[u8]) -> Result<(), E>
        requires
            element.within(src@.len()),
    ;

    fn end(&mut self, w: &mut Vec<u8>, element: &Element, src: &[u8]) -> Result<(), E>
        requires
            element.within(src@.len()),
    ;
}

/// The baseline HTML output.
pub struct DefaultHtmlHandler;

/// `b` as HTML text.
pub open spec fn escape_byte(b: u8) -> Seq<u8> {
    if b == 0x3cu8 {
        "&lt;".spec_bytes()
    } else if b == 0x3eu8 {
        "&gt;".spec_bytes()
    } else if b == 0x26u8 {
        "&amp;".spec_bytes()
    } else if b == 0x22u8 {
        "&quot;".spec_bytes()
    } else {
        seq![b]
    }
}

/// `s` as HTML text.
pub open spec fn escape(s: Seq<u8>) -> Seq<u8>
    decreases s.len(),
{
    if s.len() == 0 {
        Seq::empty()
    } else {
        escape(s.drop_last()) + escape_byte(s.last())
    }
}

pub open spec fn text_of(src: Seq<u8>, v: Span) -> Seq<u8> {
    src.subrange(v.start as int, v.end())
}

/// The heading level of a title, from 1 to 6.
pub open spec fn heading_digit(level: usize) -> u8 {
    if level <= 1 {
        0x31u8
    } else if level >= 6 {
        0x36u8
    } else {
        (0x30 + level) as u8
    }
}

/// What the default pass writes on entering `e`.
pub open spec fn start_html(e: Element, src: Seq<u8>) -> Seq<u8> {
    match e {
        Element::Document => "<main>".spec_bytes(),
        Element::Section => "<section>".spec_bytes(),
        Element::Title(t) => "<h".spec_bytes() + seq![heading_digit(t.level)] + ">".spec_bytes(),
        Element::Paragraph => "<p>".spec_bytes(),
        Element::Bold => "<b>".spec_bytes(),
        Element::Italic => "<i>".spec_bytes(),
        Element::Strike => "<s>".spec_bytes(),
        Element::Underline => "<u>".spec_bytes(),
        Element::Rule => "<hr>".spec_bytes(),
        Element::Block(_) => "<pre>".spec_bytes(),
        Element::List { ordered } => if ordered {
            "<ol>".spec_bytes()
        } else {
            "<ul>".spec_bytes()
        },
        Element::ListItem { .. } => "<li>".spec_bytes(),
        Element::Link(l) => "<a href=\"".spec_bytes() + escape(text_of(src, l.path)) + "\">".spec_bytes()
            + escape(
            match l.desc {
                Some(d) => text_of(src, d),
                None => text_of(src, l.path),
            },
        ) + "</a>".spec_bytes(),
        Element::FnRef { label } => "<sup>".spec_bytes() + escape(text_of(src, label))
            + "</sup>".spec_bytes(),
        Element::Timestamp(t) => "<span class=\"timestamp\">".spec_bytes() + escape(
            text_of(src, t.raw),
        ) + "</span>".spec_bytes(),
        Element::Cookie { value } => "<code>".spec_bytes() + escape(text_of(src, value))
            + "</code>".spec_bytes(),
        Element::InlineSrc { body, .. } => "<code>".spec_bytes() + escape(text_of(src, body))
            + "</code>".spec_bytes(),
        Element::Target { target } => "<span id=\"".spec_bytes() + escape(text_of(src, target))
            + "\"></span>".spec_bytes(),
        Element::Text { value } => escape(text_of(src, value)),
        Element::Verbatim { value } => "<code>".spec_bytes() + escape(text_of(src, value))
            + "</code>".spec_bytes(),
        Element::Code { value } => "<code>".spec_bytes() + escape(text_of(src, value))
            + "</code>".spec_bytes(),
        Element::FixedWidth { value } => "<pre class=\"example\">".spec_bytes() + escape(
            text_of(src, value),
        ) + "</pre>".spec_bytes(),
        _ => Seq::empty(),
    }
}

/// What the default pass writes on leaving `e`; nothing for a leaf.
pub open spec fn end_html(e: Element) -> Seq<u8> {
    match e {
        Element::Document => "</main>".spec_bytes(),
        Element::Section => "</section>".spec_bytes(),
        Element::Title(t) => "</h".spec_bytes() + seq![heading_digit(t.level)] + ">".spec_bytes(),
        Element::Paragraph => "</p>".spec_bytes(),
        Element::Bold => "</b>".spec_bytes(),
        Element::Italic => "</i>".spec_bytes(),
        Element::Strike => "</s>".spec_bytes(),
        Element::Underline => "</u>".spec_bytes(),
        Element::Block(_) => "</pre>".spec_bytes(),
        Element::List { ordered } => if ordered {
            "</ol>".spec_bytes()
        } else {
            "</ul>".spec_bytes()
        },
        Element::ListItem { .. } => "</li>".spec_bytes(),
        _ => Seq::empty(),
    }
}

/// The default output for a sequence of events over `doc`.
pub open spec fn html_of(doc: &Document, src: Seq<u8>, evs: Seq<Event>) -> Seq<u8>
    decreases evs.len(),
{
    if evs.len() == 0 {
        Seq::empty()
    } else {
        html_of(doc, src, evs.drop_last()) + match evs.last() {
            Event::Start(i) => start_html(doc.elements@[i as int], src),
            Event::End(i) => end_html(doc.elements@[i as int]),
        }
    }
}

fn push_str(w: &mut Vec<u8>, t: &str)
    ensures
        final(w)@ == old(w)@ + t.spec_bytes(),
{
    let b = t.as_bytes();
    let mut i: usize = 0;
    while i < b.len()
        invariant
            i <= b@.len(),
            b@ == t.spec_bytes(),
            w@ == old(w)@ + b@.subrange(0, i as int),
        decreases b@.len() - i,
    {
        w.push(b[i]);
        i = i + 1;
        assert(b@.subrange(0, i as int) =~= b@.subrange(0, i - 1) + seq![b@[i - 1]]);
    }
    assert(b@.subrange(0, i as int) =~= b@);
}

fn push_escaped(w: &mut Vec<u8>, src: &[u8], v: Span)
    requires
        v.within(src@.len()),
    ensures
        final(w)@ == old(w)@ + escape(text_of(src@, v)),
{
    let n = src.len();
    let end = v.start + v.len;
    let mut i = v.start;
    while i < end
        invariant
            v.start <= i <= end == v.end() <= src@.len(),
            w@ == old(w)@ + escape(src@.subrange(v.start as int, i as int)),
        decreases end - i,
    {
        let c = src[i];
        assert(src@.subrange(v.start as int, i + 1).drop_last() =~= src@.subrange(v.start as int, i as int));
        if c == 0x3c {
            push_str(w, "&lt;");
        } else if c == 0x3e {
            push_str(w, "&gt;");
        } else if c == 0x26 {
            push_str(w, "&amp;");
        } else if c == 0x22 {
            push_str(w, "&quot;");
        } else {
            w.push(c);
        }
        i = i + 1;
        assert(w@ =~= old(w)@ + escape(src@.subrange(v.start as int, i as int)));
    }
}

fn push_heading(w: &mut Vec<u8>, open: bool, level: usize)
    ensures
        final(w)@ == old(w)@ + if open {
            "<h".spec_bytes()
        } else {
            "</h".spec_bytes()
        } + seq![heading_digit(level)] + ">".spec_bytes(),
{
    if open {
        push_str(w, "<h");
    } else {
        push_str(w, "</h");
    }
    let d: u8 = if level <= 1 {
        0x31
    } else if level >= 6 {
        0x36
    } else {
        (0x30 + level) as u8
    };
    w.push(d);
    push_str(w, ">");
    assert(final(w)@ =~= old(w)@ + if open {
        "<h".spec_bytes()
    } else {
        "</h".spec_bytes()
    } + seq![heading_digit(level)] + ">".spec_bytes());
}

impl DefaultHtmlHandler {
    /// Writes the default output for entering `element`.
    pub fn write_start(&self, w: &mut Vec<u8>, element: &Element, src: &[u8])
        requires
            element.within(src@.len()),
        ensures
            final(w)@ == old(w)@ + start_html(*element, src@),
    {
        match element {
            Element::Document => push_str(w, "<main>"),
            Element::Section => push_str(w, "<section>"),
            Element::Title(t) => push_heading(w, true, t.level),
            Element::Paragraph => push_str(w, "<p>"),
            Element::Bold => push_str(w, "<b>"),
            Element::Italic => push_str(w, "<i>"),
            Element::Strike => push_str(w, "<s>"),
            Element::Underline => push_str(w, "<u>"),
            Element::Rule => push_str(w, "<hr>"),
            Element::Block(_) => push_str(w, "<pre>"),
            Element::List { ordered } => {
                if *ordered {
                    push_str(w, "<ol>");
                } else {
                    push_str(w, "<ul>");
                }
            },
            Element::ListItem { .. } => push_str(w, "<li>"),
            Element::Link(l) => {
                push_str(w, "<a href=\"");
                push_escaped(w, src, l.path);
                push_str(w, "\">");
                match l.desc {
                    Some(d) => push_escaped(w, src, d),
                    None => push_escaped(w, src, l.path),
                }
                push_str(w, "</a>");
                assert(final(w)@ =~= old(w)@ + start_html(*element, src@));
            },
            Element::FnRef { label } => {
                push_str(w, "<sup>");
                push_escaped(w, src, *label);
                push_str(w, "</sup>");
                assert(final(w)@ =~= old(w)@ + start_html(*element, src@));
            },
            Element::Timestamp(t) => {
                push_str(w, "<span class=\"timestamp\">");
                push_escaped(w, src, t.raw);
                push_str(w, "</span>");
                assert(final(w)@ =~= old(w)@ + start_html(*element, src@));
            },
            Element::InlineSrc { body, .. } => {
                push_str(w, "<code>");
                push_escaped(w, src, *body);
                push_str(w, "</code>");
                assert(final(w)@ =~= old(w)@ + start_html(*element, src@));
            },
            Element::Cookie { value } => {
                push_str(w, "<code>");
                push_escaped(w, src, *value);
                push_str(w, "</code>");
                assert(final(w)@ =~= old(w)@ + start_html(*element, src@));
            },
            Element::Target { target } => {
                push_str(w, "<span id=\"");
                push_escaped(w, src, *target);
                push_str(w, "\"></span>");
                assert(final(w)@ =~= old(w)@ + start_html(*element, src@));
            },
            Element::Text { value } => push_escaped(w, src, *value),
            Element::Verbatim { value } | Element::Code { value } => {
                push_str(w, "<code>");
                push_escaped(w, src, *value);
                push_str(w, "</code>");
                assert(final(w)@ =~= old(w)@ + start_html(*element, src@));
            },
            Element::FixedWidth { value } => {
                push_str(w, "<pre class=\"example\">");
                push_escaped(w, src, *value);
                push_str(w, "</pre>");
                assert(final(w)@ =~= old(w)@ + start_html(*element, src@));
            },
            _ => {
                assert(w@ =~= old(w)@ + start_html(*element, src@));
            },
        }
    }

    /// Writes the default output for leaving `element`.
    pub fn write_end(&self, w: &mut Vec<u8>, element: &Element)
        ensures
            final(w)@ == old(w)@ + end_html(*element),
    {
        match element {
            Element::Document => push_str(w, "</main>"),
            Element::Section => push_str(w, "</section>"),
            Element::Title(t) => push_heading(w, false, t.level),
            Element::Paragraph => push_str(w, "</p>"),
            Element::Bold => push_str(w, "</b>"),
            Element::Italic => push_str(w, "</i>"),
            Element::Strike => push_str(w, "</s>"),
            Element::Underline => push_str(w, "</u>"),
            Element::Block(_) => push_str(w, "</pre>"),
            Element::List { ordered } => {
                if *ordered {
                    push_str(w, "</ol>");
                } else {
                    push_str(w, "</ul>");
                }
            },
            Element::ListItem { .. } => push_str(w, "</li>"),
            _ => {
                assert(w@ =~= old(w)@ + end_html(*element));
            },
        }
    }
}

impl<E> HtmlHandler<E> for DefaultHtmlHandler {
    fn start(&mut self, w: &mut Vec<u8>, element: &Element, src: &[u8]) -> Result<(), E> {
        self.write_start(w, element, src);
        Ok(())
    }

    fn end(&mut self, w: &mut Vec<u8>, element: &Element, src: &[u8]) -> Result<(), E> {
        self.write_end(w, element);
        Ok(())
    }
}

/// Runs `handler` over the events of `doc`, writing to `w`; stops at the
/// first error and returns it.
pub fn render<E, H: HtmlHandler<E>>(doc: &Document, src: &[u8], handler: &mut H, w: &mut Vec<u8>) -> (r: Result<(), E>)
    requires
        doc.wf(),
        doc.src_len == src@.len(),
{
    let events = doc.iter();
    let mut k: usize = 0;
    while k < events.len()
        invariant
            doc.wf(),
            doc.src_len == src@.len(),
            events@ == doc.event_seq(),
            k <= events@.len(),
        decreases events@.len() - k,
    {
        let (i, entering) = match events[k] {
            Event::Start(i) => (i, true),
            Event::End(i) => (i, false),
        };
        if i < doc.elements.len() {
            let element = &doc.elements[i];
            assert(doc.ends@[i as int] > i);
            let r = if entering {
                handler.start(w, element, src)
            } else {
                handler.end(w, element, src)
            };
            match r {
                Ok(()) => {},
                Err(e) => {
                    return Err(e);
                },
            }
        }
        k = k + 1;
    }
    Ok(())
}

/// The default HTML output of `doc`.
pub fn html(doc: &Document, src: &[u8]) -> (r: Vec<u8>)
    requires
        doc.wf(),
        doc.src_len == src@.len(),
    ensures
        r@ == html_of(doc, src@, doc.event_seq()),
{
    let events = doc.iter();
    let handler = DefaultHtmlHandler;
    let mut w: Vec<u8> = Vec::new();
    let mut k: usize = 0;
    while k < events.len()
        invariant
            doc.wf(),
            doc.src_len == src@.len(),
            events@ == doc.event_seq(),
            k <= events@.len(),
            w@ == html_of(doc, src@, events@.subrange(0, k as int)),
        decreases events@.len() - k,
    {
        assert(events@.subrange(0, k + 1).drop_last() =~= events@.subrange(0, k as int));
        proof {
            lemma_event_in_range(doc, k as int);
            match events@[k as int] {
                Event::Start(i) => assert(doc.ends@[i as int] > i),
                Event::End(i) => assert(doc.ends@[i as int] > i),
            }
        }
        match events[k] {
            Event::Start(i) => {
                handler.write_start(&mut w, &doc.elements[i], src);
            },
            Event::End(i) => {
                handler.write_end(&mut w, &doc.elements[i]);
            },
        }
        k = k + 1;
    }
    assert(events@.subrange(0, k as int) =~= events@);
    w
}

} // verus!
