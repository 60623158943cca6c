use orgize::document::{Document, Event};
use orgize::elements::Element;
use orgize::parser::{parse, parse_with_config};
use orgize::render::html;
use orgize::span::Span;
use orgize::title::{ConfigError, ParseConfig};

fn text<'a>(src: &'a str, v: Span) -> &'a str {
    &src[v.start..v.start + v.len]
}

fn kinds(doc: &Document) -> Vec<String> {
    doc.iter()
        .iter()
        .map(|e| match e {
            Event::Start(i) => format!("+{:?}", short(doc.element(*i))),
            Event::End(i) => format!("-{:?}", short(doc.element(*i))),
        })
        .collect()
}

fn short(e: &Element) -> &'static str {
    match e {
        Element::Document => "document",
        Element::Section => "section",
        Element::Headline => "headline",
        Element::Title(_) => "title",
        Element::Paragraph => "paragraph",
        Element::Bold => "bold",
        Element::Italic => "italic",
        Element::Strike => "strike",
        Element::Underline => "underline",
        Element::Keyword(_) => "keyword",
        Element::BabelCall { .. } => "babel_call",
        Element::FnDef { .. } => "fn_def",
        Element::RadioTarget { .. } => "radio_target",
        Element::Rule => "rule",
        Element::Text { .. } => "text",
        Element::Verbatim { .. } => "verbatim",
        Element::Code { .. } => "code",
        Element::Comment { .. } => "comment",
        Element::FixedWidth { .. } => "fixed_width",
        Element::Block(_) => "block",
        Element::DynBlock { .. } => "dyn_block",
        Element::Drawer { .. } => "drawer",
        Element::List { .. } => "list",
        Element::ListItem { .. } => "list_item",
        Element::Link(_) => "link",
        Element::FnRef { .. } => "fn_ref",
        Element::Timestamp(_) => "timestamp",
        Element::Target { .. } => "target",
        Element::Macros(_) => "macros",
        Element::Cookie { .. } => "cookie",
        Element::InlineSrc { .. } => "inline_src",
        Element::InlineCall { .. } => "inline_call",
        Element::Snippet { .. } => "snippet",
        Element::Planning(_) => "planning",
        Element::Clock(_) => "clock",
    }
}

fn render(src: &str) -> String {
    let doc = parse(src);
    String::from_utf8(html(&doc, src.as_bytes())).unwrap()
}

#[test]
fn round_trip_example() {
    let src = "* DONE Title :tag:\n*section*";
    let doc = parse(src);
    let title = (0..doc.len())
        .find_map(|i| match doc.element(i) {
            Element::Title(t) => Some(t.clone()),
            _ => None,
        })
        .unwrap();
    assert_eq!(title.level, 1);
    assert_eq!(text(src, title.keyword.unwrap()), "DONE");
    assert_eq!(text(src, title.raw), "Title");
    let tags: Vec<&str> = title.tags.iter().map(|t| text(src, *t)).collect();
    assert_eq!(tags, vec!["tag"]);
    assert_eq!(
        render(src),
        "<main><h1>Title</h1><section><p><b>section</b></p></section></main>"
    );
}

#[test]
fn html_of_title_and_bold_section() {
    assert_eq!(
        render("* title\n*section*"),
        "<main><h1>title</h1><section><p><b>section</b></p></section></main>"
    );
}

#[test]
fn headline_nesting() {
    let src = "* a\n** b\n** c\n* d\n";
    let doc = parse(src);
    let k = kinds(&doc);
    let expected: Vec<&str> = vec![
        "+\"document\"",
        "+\"headline\"", "+\"title\"", "+\"text\"", "-\"title\"",
        "+\"headline\"", "+\"title\"", "+\"text\"", "-\"title\"", "-\"headline\"",
        "+\"headline\"", "+\"title\"", "+\"text\"", "-\"title\"", "-\"headline\"",
        "-\"headline\"",
        "+\"headline\"", "+\"title\"", "+\"text\"", "-\"title\"", "-\"headline\"",
        "-\"document\"",
    ];
    assert_eq!(k, expected);
    // the fourth headline is a child of the document, like the first
    let heads: Vec<usize> = (0..doc.len()).filter(|i| *doc.element(*i) == Element::Headline).collect();
    assert_eq!(heads.len(), 4);
    assert_eq!(doc.ends[heads[0]], heads[3]);
    assert_eq!(doc.ends[0], doc.len());
    assert_eq!(doc.parent(heads[0]), Some(0));
    assert_eq!(doc.parent(heads[3]), Some(0));
    assert_eq!(doc.parent(heads[1]), Some(heads[0]));
    assert_eq!(doc.parent(heads[2]), Some(heads[0]));
    assert_eq!(doc.next_sibling(heads[0]), Some(heads[3]));
    assert_eq!(doc.next_sibling(heads[1]), Some(heads[2]));
    assert_eq!(doc.next_sibling(heads[2]), None);
    assert_eq!(doc.next_sibling(heads[3]), None);
    assert_eq!(doc.first_child(0), Some(heads[0]));
    assert_eq!(doc.parent(0), None);
}

#[test]
fn emphasis_fallback() {
    let src = "*unterminated";
    let doc = parse(src);
    assert_eq!(
        kinds(&doc),
        vec!["+\"document\"", "+\"section\"", "+\"paragraph\"", "+\"text\"", "-\"paragraph\"", "-\"section\"", "-\"document\""]
    );
    let values: Vec<&str> = (0..doc.len())
        .filter_map(|i| match doc.element(i) {
            Element::Text { value } => Some(text(src, *value)),
            _ => None,
        })
        .collect();
    assert_eq!(values, vec!["*unterminated"]);
}

#[test]
fn parse_is_total() {
    for src in ["", "\n\n", "*", "* ", "#+", "#+BEGIN_SRC", "[fn:", "~~~~", "*a /b *c", "\u{0}\u{1}\u{7f}", "é*ü*"] {
        let doc = parse(src);
        assert!(doc.len() >= 1);
        assert_eq!(*doc.element(0), Element::Document);
        assert_eq!(doc.ends[0], doc.len());
    }
}

#[test]
fn views_lie_within_input() {
    let src = "#+TITLE: t\n* TODO [#B] x *y* :a:b:\n: fixed\n# c\n-----\n=v= ~c~ /i/ +s+ _u_\n";
    let doc = parse(src);
    for i in 0..doc.len() {
        let ok = |v: &Span| v.start + v.len <= src.len();
        match doc.element(i) {
            Element::Text { value }
            | Element::Verbatim { value }
            | Element::Code { value }
            | Element::Comment { value }
            | Element::FixedWidth { value } => assert!(ok(value)),
            Element::Keyword(k) => assert!(ok(&k.key) && ok(&k.value)),
            Element::Title(t) => {
                assert!(ok(&t.raw));
                assert!(t.tags.iter().all(|v| ok(v)));
            }
            _ => {}
        }
    }
}

#[test]
fn every_start_once_and_end_only_for_containers() {
    let src = "* h\ntext *b* /i/ =v=\n: f\n";
    let doc = parse(src);
    let events = doc.iter();
    for i in 0..doc.len() {
        let starts = events.iter().filter(|e| **e == Event::Start(i)).count();
        let ends = events.iter().filter(|e| **e == Event::End(i)).count();
        assert_eq!(starts, 1);
        assert_eq!(ends, if doc.element(i).is_container() { 1 } else { 0 });
    }
}

#[test]
fn two_traversals_agree() {
    let doc = parse("* a\n** b\nsome *text*\n");
    assert_eq!(doc.iter(), doc.iter());
}

#[test]
fn title_parts() {
    let src = "** TODO [#A] Write tests :work:home:";
    let doc = parse(src);
    let t = match doc.element(2) {
        Element::Title(t) => t.clone(),
        other => panic!("{:?}", other),
    };
    assert_eq!(t.level, 2);
    assert_eq!(text(src, t.keyword.unwrap()), "TODO");
    assert_eq!(t.priority, Some(b'A'));
    assert_eq!(text(src, t.raw), "Write tests");
    let tags: Vec<&str> = t.tags.iter().map(|v| text(src, *v)).collect();
    assert_eq!(tags, vec!["work", "home"]);
}

#[test]
fn custom_todo_keywords() {
    let config = ParseConfig { todo_keywords: vec!["TASK".to_string()], done_keywords: vec![] };
    let src = "* TASK Title 1";
    let doc = parse_with_config(src, &config);
    match doc.element(2) {
        Element::Title(t) => {
            assert_eq!(text(src, t.keyword.unwrap()), "TASK");
            assert_eq!(text(src, t.raw), "Title 1");
        }
        other => panic!("{:?}", other),
    }
    let doc = parse("* TASK Title 1");
    match doc.element(2) {
        Element::Title(t) => {
            assert!(t.keyword.is_none());
            assert_eq!(text(src, t.raw), "TASK Title 1");
        }
        other => panic!("{:?}", other),
    }
}

#[test]
fn block_level_lines() {
    assert_eq!(
        render("#+TITLE: x\n-----\n: fixed <b>\n# hidden\npara"),
        "<main><section><hr><pre class=\"example\">fixed &lt;b&gt;</pre><p>para</p></section></main>"
    );
}

#[test]
fn inline_markers() {
    assert_eq!(
        render("a /i/ +s+ _u_ =v= ~c~ *b /bi/*."),
        "<main><section><p>a <i>i</i> <s>s</s> <u>u</u> <code>v</code> <code>c</code> <b>b <i>bi</i></b>.</p></section></main>"
    );
}

#[test]
fn marker_inside_word_is_text() {
    assert_eq!(render("a*b*c"), "<main><section><p>a*b*c</p></section></main>");
    assert_eq!(render("* not"), "<main><h1>not</h1></main>");
}

#[test]
fn blank_line_splits_paragraphs() {
    assert_eq!(
        render("one\ntwo\n\nthree"),
        "<main><section><p>one\ntwo</p><p>three</p></section></main>"
    );
}

#[test]
fn deep_heading_level_caps_at_six() {
    assert_eq!(render("******* deep"), "<main><h6>deep</h6></main>");
}

#[test]
fn text_is_escaped() {
    assert_eq!(render("a < b & \"c\""), "<main><section><p>a &lt; b &amp; &quot;c&quot;</p></section></main>");
}

#[test]
fn plain_list() {
    assert_eq!(
        render("- a\n- b\n"),
        "<main><section><ul><li><p>a</p></li><li><p>b</p></li></ul></section></main>"
    );
}

#[test]
fn numbered_list_with_continuation() {
    assert_eq!(
        render("1. x\n   more\n2) y\nafter"),
        "<main><section><ol><li><p>x\n   more</p></li><li><p>y</p></li></ol><p>after</p></section></main>"
    );
}

#[test]
fn nested_list() {
    assert_eq!(
        render("- a\n  - b\n- c"),
        "<main><section><ul><li><p>a</p><ul><li><p>b</p></li></ul></li><li><p>c</p></li></ul></section></main>"
    );
}

#[test]
fn blank_line_then_outdented_text_ends_list() {
    assert_eq!(
        render("+ a\n\n  still a\n\nout"),
        "<main><section><ul><li><p>a</p><p>still a</p></li></ul><p>out</p></section></main>"
    );
}

#[test]
fn star_bullet_needs_indent() {
    assert_eq!(render(" * item"), "<main><section><ul><li><p>item</p></li></ul></section></main>");
}

#[test]
fn block_body_is_verbatim() {
    let src = "#+BEGIN_SRC rust\nfn f() { *x* }\n#+end_src\nafter";
    let doc = parse(src);
    let block = (0..doc.len())
        .find_map(|i| match doc.element(i) {
            Element::Block(b) => Some(*b),
            _ => None,
        })
        .unwrap();
    assert_eq!(text(src, block.name), "SRC");
    assert_eq!(text(src, block.args), "rust");
    assert_eq!(
        render(src),
        "<main><section><pre>fn f() { *x* }</pre><p>after</p></section></main>"
    );
}

#[test]
fn unterminated_block_falls_back_to_paragraph() {
    assert_eq!(
        render("#+BEGIN_QUOTE\ntext\n#+END_SRC"),
        "<main><section><p>#+BEGIN_QUOTE\ntext\n#+END_SRC</p></section></main>"
    );
}

#[test]
fn empty_block() {
    assert_eq!(render("#+begin_example\n#+END_EXAMPLE\n"), "<main><section><pre></pre></section></main>");
}

#[test]
fn links_and_footnote_references() {
    assert_eq!(
        render("see [[https://x.org][site]], [[file.org]] and [fn:1]."),
        "<main><section><p>see <a href=\"https://x.org\">site</a>, <a href=\"file.org\">file.org</a> and <sup>1</sup>.</p></section></main>"
    );
}

#[test]
fn malformed_link_is_text() {
    assert_eq!(render("[[open"), "<main><section><p>[[open</p></section></main>");
    assert_eq!(render("[fn:]"), "<main><section><p>[fn:]</p></section></main>");
}

#[test]
fn timestamps_targets_and_macros() {
    assert_eq!(
        render("at <2003-09-16 Tue 09:39> and [2020-01-02] see <<here>> {{{title}}}"),
        "<main><section><p>at <span class=\"timestamp\">&lt;2003-09-16 Tue 09:39&gt;</span> and <span class=\"timestamp\">[2020-01-02]</span> see <span id=\"here\"></span> </p></section></main>"
    );
}

#[test]
fn timestamp_fields() {
    let src = "<2003-09-16 Tue 09:39>";
    let doc = parse(src);
    let t = (0..doc.len())
        .find_map(|i| match doc.element(i) {
            Element::Timestamp(t) => Some(*t),
            _ => None,
        })
        .unwrap();
    assert!(t.active);
    assert_eq!((t.year, t.month, t.day), (2003, 9, 16));
    assert_eq!(text(src, t.dayname.unwrap()), "Tue");
    assert_eq!((t.hour, t.minute), (Some(9), Some(39)));
    assert_eq!(text(src, t.raw), src);
}

#[test]
fn macro_fields() {
    let src = "{{{kbd(C-x b)}}}";
    let doc = parse(src);
    let m = (0..doc.len())
        .find_map(|i| match doc.element(i) {
            Element::Macros(m) => Some(*m),
            _ => None,
        })
        .unwrap();
    assert_eq!(text(src, m.name), "kbd");
    assert_eq!(text(src, m.args.unwrap()), "C-x b");
}

#[test]
fn malformed_objects_are_text() {
    assert_eq!(
        render("<2003-9-16> <<>> {{{x}}"),
        "<main><section><p>&lt;2003-9-16&gt; &lt;&lt;&gt;&gt; {{{x}}</p></section></main>"
    );
}

#[test]
fn drawer_is_a_leaf_with_its_body() {
    let src = "* h\n:PROPERTIES:\n:ID: x\n:END:\ntext";
    let doc = parse(src);
    assert_eq!(
        kinds(&doc),
        vec![
            "+\"document\"", "+\"headline\"", "+\"title\"", "+\"text\"", "-\"title\"",
            "+\"section\"", "+\"drawer\"",
            "+\"paragraph\"", "+\"text\"", "-\"paragraph\"", "-\"section\"", "-\"headline\"", "-\"document\"",
        ]
    );
    let (i, name, contents) = (0..doc.len())
        .find_map(|i| match doc.element(i) {
            Element::Drawer { name, contents } => Some((i, *name, *contents)),
            _ => None,
        })
        .unwrap();
    assert!(!doc.element(i).is_container());
    assert_eq!(text(src, name), "PROPERTIES");
    assert_eq!(text(src, contents), ":ID: x");
}

#[test]
fn unterminated_drawer_is_text() {
    assert_eq!(render(":LOGBOOK:\nx"), "<main><section><p>:LOGBOOK:\nx</p></section></main>");
}

#[test]
fn dynamic_block_body_is_parsed() {
    let src = "#+BEGIN: clocktable :scope file\n- *a*\n#+END:\nafter";
    let doc = parse(src);
    let (name, args) = (0..doc.len())
        .find_map(|i| match doc.element(i) {
            Element::DynBlock { name, args } => Some((*name, *args)),
            _ => None,
        })
        .unwrap();
    assert_eq!(text(src, name), "clocktable");
    assert_eq!(text(src, args), ":scope file");
    assert_eq!(
        render(src),
        "<main><section><ul><li><p><b>a</b></p></li></ul><p>after</p></section></main>"
    );
}

#[test]
fn drawer_end_must_come_before_next_headline() {
    let src = "* a\n:NOTES:\n* b\n:END:";
    let doc = parse(src);
    assert!((0..doc.len()).all(|i| !matches!(doc.element(i), Element::Drawer { .. })));
}

#[test]
fn planning_line_under_headline() {
    let src = "* TODO task\n  DEADLINE: <2024-05-01 Wed> SCHEDULED: <2024-04-28>\nbody";
    let doc = parse(src);
    let plan = (0..doc.len())
        .find_map(|i| match doc.element(i) {
            Element::Planning(p) => Some((i, *p)),
            _ => None,
        })
        .unwrap();
    assert_eq!(doc.parent(plan.0), Some(1));
    let p = plan.1;
    assert_eq!(p.deadline.map(|t| (t.year, t.month, t.day)), Some((2024, 5, 1)));
    assert_eq!(p.scheduled.map(|t| (t.year, t.month, t.day)), Some((2024, 4, 28)));
    assert!(p.closed.is_none());
    assert_eq!(render(src), "<main><h1>task</h1><section><p>body</p></section></main>");
}

#[test]
fn planning_only_right_after_headline() {
    let doc = parse("text\nDEADLINE: <2024-05-01>");
    assert!((0..doc.len()).all(|i| !matches!(doc.element(i), Element::Planning(_))));
}

#[test]
fn clock_lines() {
    let src = "CLOCK: [2024-01-01 Mon 10:00]--[2024-01-01 Mon 11:30] =>  1:30\nCLOCK: [2024-01-02 Tue 09:00]";
    let doc = parse(src);
    let clocks: Vec<_> = (0..doc.len())
        .filter_map(|i| match doc.element(i) {
            Element::Clock(c) => Some(*c),
            _ => None,
        })
        .collect();
    assert_eq!(clocks.len(), 2);
    assert_eq!((clocks[0].start.hour, clocks[0].start.minute), (Some(10), Some(0)));
    assert_eq!(clocks[0].end.map(|t| (t.hour, t.minute)), Some((Some(11), Some(30))));
    assert_eq!(text(src, clocks[0].duration.unwrap()), "1:30");
    assert!(!clocks[0].start.active);
    assert!(clocks[1].end.is_none() && clocks[1].duration.is_none());
}

#[test]
fn cookies_and_snippets() {
    let src = "* Tasks [1/3] [40%]\nsee @@html:<br>@@ here";
    let doc = parse(src);
    let cookies: Vec<&str> = (0..doc.len())
        .filter_map(|i| match doc.element(i) {
            Element::Cookie { value } => Some(text(src, *value)),
            _ => None,
        })
        .collect();
    assert_eq!(cookies, vec!["[1/3]", "[40%]"]);
    let snippet = (0..doc.len())
        .find_map(|i| match doc.element(i) {
            Element::Snippet { name, value } => Some((text(src, *name), text(src, *value))),
            _ => None,
        })
        .unwrap();
    assert_eq!(snippet, ("html", "<br>"));
    assert_eq!(render("[2/5] done"), "<main><section><p><code>[2/5]</code> done</p></section></main>");
}

#[test]
fn config_rejects_bad_keywords() {
    assert_eq!(
        ParseConfig::new(vec!["TODO".to_string(), String::new()], vec![]).err(),
        Some(ConfigError::EmptyKeyword)
    );
    assert_eq!(
        ParseConfig::new(vec![], vec!["NOT DONE".to_string()]).err(),
        Some(ConfigError::KeywordWithSpace)
    );
    let c = ParseConfig::new(vec!["NEXT".to_string()], vec!["GONE".to_string()]).ok().unwrap();
    assert_eq!(c.todo_keywords, vec!["NEXT".to_string()]);
    let src = "* GONE away";
    let doc = parse_with_config(src, &c);
    match doc.element(2) {
        Element::Title(t) => assert_eq!(text(src, t.keyword.unwrap()), "GONE"),
        other => panic!("{:?}", other),
    }
}

#[test]
fn default_config_keywords() {
    let c = ParseConfig::default();
    assert_eq!(c.todo_keywords, vec!["TODO".to_string()]);
    assert_eq!(c.done_keywords, vec!["DONE".to_string()]);
}

#[test]
fn link_over_balanced_brackets() {
    let src = "[[https://a.b/c[1]][d]] [[a]] [[a] [[a][b]";
    let doc = parse(src);
    let links: Vec<(&str, Option<&str>)> = (0..doc.len())
        .filter_map(|i| match doc.element(i) {
            Element::Link(l) => Some((text(src, l.path), l.desc.map(|d| text(src, d)))),
            _ => None,
        })
        .collect();
    assert_eq!(links, vec![("https://a.b/c[1]", Some("d")), ("a", None)]);
}

#[test]
fn inline_source_and_call() {
    let src = "run src_sh[:exports code]{echo {hi}} then call_square(x=4) now";
    let doc = parse(src);
    let found: Vec<String> = (0..doc.len())
        .filter_map(|i| match doc.element(i) {
            Element::InlineSrc { lang, options, body } => Some(format!(
                "src {} {} {}",
                text(src, *lang),
                text(src, options.unwrap()),
                text(src, *body)
            )),
            Element::InlineCall { name, args } => Some(format!("call {} {}", text(src, *name), text(src, *args))),
            _ => None,
        })
        .collect();
    assert_eq!(found, vec!["src sh :exports code echo {hi}", "call square x=4"]);
    assert_eq!(render("src_py{1 < 2}"), "<main><section><p><code>1 &lt; 2</code></p></section></main>");
    assert_eq!(render("xsrc_py{1}"), "<main><section><p>xsrc_py{1}</p></section></main>");
    assert_eq!(render("call_f(1"), "<main><section><p>call_f(1</p></section></main>");
}

#[test]
fn empty_input_is_the_document_alone() {
    let doc = parse("");
    assert_eq!(doc.len(), 1);
    assert_eq!(doc.iter(), vec![Event::Start(0), Event::End(0)]);
    assert_eq!(render(""), "<main></main>");
}

#[test]
fn footnote_definition_in_tree() {
    let src = "[fn:1] the note\n text [fn:1]";
    let doc = parse(src);
    let defs: Vec<(&str, &str)> = (0..doc.len())
        .filter_map(|i| match doc.element(i) {
            Element::FnDef { label, contents } => Some((text(src, *label), text(src, *contents))),
            _ => None,
        })
        .collect();
    assert_eq!(defs, vec![("1", "the note")]);
    let refs = (0..doc.len()).filter(|i| matches!(doc.element(*i), Element::FnRef { .. })).count();
    assert_eq!(refs, 1);
}

#[test]
fn babel_call_line() {
    let src = "#+call: square(4)";
    let doc = parse(src);
    let v = (0..doc.len())
        .find_map(|i| match doc.element(i) {
            Element::BabelCall { value } => Some(text(src, *value)),
            _ => None,
        })
        .unwrap();
    assert_eq!(v, "square(4)");
}

#[test]
fn radio_target_object() {
    let src = "a <<<radio>>> b";
    let doc = parse(src);
    let t = (0..doc.len())
        .find_map(|i| match doc.element(i) {
            Element::RadioTarget { target } => Some(text(src, *target)),
            _ => None,
        })
        .unwrap();
    assert_eq!(t, "radio");
}
