use orgize::elements::Element;
use orgize::lines::{is_rule, parse_fn_def, parse_keyword};
use orgize::scan::{balanced_span, find_byte};
use orgize::span::Span;
use orgize::tools::{fn_def, keywords, metadata, toc};

fn text<'a>(src: &'a str, v: Span) -> &'a str {
    &src[v.start..v.start + v.len]
}

const DOC: &str = "#+TITLE: Notes\n#+AUTHOR:  me \n* TODO One :x:\n** Two\n*not a headline\n[fn:1] first\n[fn:note] second\n[fn:] none\n";

#[test]
fn toc_lists_headlines() {
    let t = toc(DOC);
    assert_eq!(t.len(), 2);
    assert_eq!(t[0].level, 1);
    assert_eq!(text(DOC, t[0].raw), "One");
    assert_eq!(text(DOC, t[0].keyword.unwrap()), "TODO");
    assert_eq!(t[1].level, 2);
    assert_eq!(text(DOC, t[1].raw), "Two");
}

#[test]
fn keywords_lists_pairs() {
    let k: Vec<(&str, &str)> = keywords(DOC).iter().map(|k| (text(DOC, k.key), text(DOC, k.value))).collect();
    assert_eq!(k, vec![("TITLE", "Notes"), ("AUTHOR", "me")]);
}

#[test]
fn fn_def_lists_labels() {
    let f: Vec<&str> = fn_def(DOC).iter().map(|l| text(DOC, *l)).collect();
    assert_eq!(f, vec!["1", "note"]);
}

#[test]
fn metadata_of_empty_input() {
    let (h, k, f) = metadata("");
    assert!(h.is_empty() && k.is_empty() && f.is_empty());
}

#[test]
fn metadata_handles_crlf() {
    let src = "#+KEY: v\r\n* H\r\n";
    let (h, k, _) = metadata(src);
    assert_eq!(text(src, k[0].value), "v");
    assert_eq!(text(src, h[0].raw), "H");
}

#[test]
fn keyword_line_recognizer() {
    let s = b"#+KEY: value  ";
    let k = parse_keyword(s, 0, s.len()).unwrap();
    assert_eq!((k.key.start, k.key.len), (2, 3));
    assert_eq!((k.value.start, k.value.len), (7, 5));
    assert!(parse_keyword(b"#+: v", 0, 5).is_none());
    assert!(parse_keyword(b"#+A B: v", 0, 8).is_none());
    assert!(parse_keyword(b"#+NOCOLON", 0, 9).is_none());
}

#[test]
fn fn_def_recognizer() {
    let s = b"[fn:abc] text";
    assert_eq!(parse_fn_def(s, 0, s.len()), Some(Span { start: 4, len: 3 }));
    assert_eq!(parse_fn_def(b"[fn:] x", 0, 7), None);
    assert_eq!(parse_fn_def(b"[fn:a b] x", 0, 10), None);
}

#[test]
fn rule_recognizer() {
    assert!(is_rule(b"-----", 0, 5));
    assert!(is_rule(b"-------  ", 0, 9));
    assert!(!is_rule(b"----", 0, 4));
    assert!(!is_rule(b"----- x", 0, 7));
}

#[test]
fn find_byte_finds_first_occurrence() {
    let s = b"ab:cd:ef";
    assert_eq!(find_byte(s, b':', 0, s.len()), 2);
    assert_eq!(find_byte(s, b':', 3, s.len()), 5);
    assert_eq!(find_byte(s, b':', 6, s.len()), 8);
    assert_eq!(find_byte(s, b'z', 0, 4), 4);
}

#[test]
fn container_classification() {
    assert!(Element::Document.is_container());
    assert!(Element::Bold.is_container());
    assert!(Element::Paragraph.is_container());
    assert!(!Element::Rule.is_container());
    assert!(!Element::Text { value: Span { start: 0, len: 0 } }.is_container());
}

#[test]
fn balanced_span_matches_nesting() {
    let s = b"[a[b]c]d]";
    assert_eq!(balanced_span(s, 0, s.len(), b'[', b']'), Some(7));
    assert_eq!(balanced_span(s, 2, s.len(), b'[', b']'), Some(5));
    assert_eq!(balanced_span(b"[[x]", 0, 4, b'[', b']'), None);
}

#[test]
fn stars_alone_are_not_a_headline() {
    assert!(toc("***\n*unterminated\n").is_empty());
    let t = toc("* a\n** b\n** c\n* d");
    let levels: Vec<usize> = t.iter().map(|h| h.level).collect();
    assert_eq!(levels, vec![1, 2, 2, 1]);
}

#[test]
fn metadata_mixed_lines() {
    let src = "* DONE Title :tag:\n#+TITLE: Hello\n[fn:1] note\n- item\n  * indented";
    let (h, k, f) = metadata(src);
    assert_eq!(h.len(), 1);
    assert_eq!(text(src, h[0].keyword.unwrap()), "DONE");
    assert_eq!(text(src, h[0].raw), "Title");
    assert_eq!(k.len(), 1);
    assert_eq!((text(src, k[0].key), text(src, k[0].value)), ("TITLE", "Hello"));
    let labels: Vec<&str> = f.iter().map(|l| text(src, *l)).collect();
    assert_eq!(labels, vec!["1"]);
}

#[test]
fn toc_titles_keywords_and_tags() {
    let src = "* TODO a\n* TASK b\n** [#B] c :x:y:";
    let t = toc(src);
    assert_eq!(t.len(), 3);
    assert_eq!(text(src, t[0].keyword.unwrap()), "TODO");
    assert_eq!(text(src, t[0].raw), "a");
    assert!(t[1].keyword.is_none());
    assert_eq!(text(src, t[1].raw), "TASK b");
    assert_eq!(t[2].priority, Some(b'B'));
    assert_eq!(text(src, t[2].raw), "c");
    let tags: Vec<&str> = t[2].tags.iter().map(|v| text(src, *v)).collect();
    assert_eq!(tags, vec!["x", "y"]);
}

#[test]
fn toc_scans_raw_lines_inside_blocks() {
    let src = "#+BEGIN_EXAMPLE\n* x\n#+END_EXAMPLE";
    let t = toc(src);
    assert_eq!(t.len(), 1);
    assert_eq!(text(src, t[0].raw), "x");
}

#[test]
fn toc_and_metadata_agree() {
    let src = "* DONE Title :tag:\n*section*\n** b";
    let a = toc(src);
    let k = keywords(src);
    let b = metadata(src).0;
    assert!(k.is_empty());
    assert_eq!(a, b);
    assert_eq!(text(src, a[0].raw), "Title");
}
