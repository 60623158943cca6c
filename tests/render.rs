use orgize::elements::Element;
use orgize::parser::parse;
use orgize::render::{render, DefaultHtmlHandler, HtmlHandler};

#[derive(Debug, PartialEq)]
enum MyError {
    Heading,
}

struct AnchoredTitles(DefaultHtmlHandler);

impl HtmlHandler<MyError> for AnchoredTitles {
    fn start(&mut self, w: &mut Vec<u8>, element: &Element, src: &[u8]) -> Result<(), MyError> {
        if let Element::Title(t) = element {
            if t.level > 6 {
                return Err(MyError::Heading);
            }
            let raw = &src[t.raw.start..t.raw.start + t.raw.len];
            let id = String::from_utf8_lossy(raw).to_lowercase();
            w.extend_from_slice(format!("<h{0}><a id=\"{1}\" href=\"#{1}\">", t.level, id).as_bytes());
            Ok(())
        } else {
            <DefaultHtmlHandler as HtmlHandler<MyError>>::start(&mut self.0, w, element, src)
        }
    }

    fn end(&mut self, w: &mut Vec<u8>, element: &Element, src: &[u8]) -> Result<(), MyError> {
        if let Element::Title(t) = element {
            w.extend_from_slice(format!("</a></h{}>", t.level).as_bytes());
            Ok(())
        } else {
            <DefaultHtmlHandler as HtmlHandler<MyError>>::end(&mut self.0, w, element, src)
        }
    }
}

#[test]
fn custom_handler_overrides_titles_and_delegates_the_rest() {
    let src = "* title\n*section*";
    let doc = parse(src);
    let mut w = Vec::new();
    let mut h = AnchoredTitles(DefaultHtmlHandler);
    assert_eq!(render(&doc, src.as_bytes(), &mut h, &mut w), Ok(()));
    assert_eq!(
        String::from_utf8(w).unwrap(),
        "<main><h1><a id=\"title\" href=\"#title\">title</a></h1><section><p><b>section</b></p></section></main>"
    );
}

#[test]
fn handler_error_stops_rendering() {
    let src = "intro\n******* deep\nafter";
    let doc = parse(src);
    let mut w = Vec::new();
    let mut h = AnchoredTitles(DefaultHtmlHandler);
    assert_eq!(render(&doc, src.as_bytes(), &mut h, &mut w), Err(MyError::Heading));
    assert_eq!(String::from_utf8(w).unwrap(), "<main><section><p>intro</p></section>");
}

#[test]
fn default_handler_through_render() {
    let src = "* title\n*section*";
    let doc = parse(src);
    let mut w = Vec::new();
    let mut h = DefaultHtmlHandler;
    let r: Result<(), ()> = render(&doc, src.as_bytes(), &mut h, &mut w);
    assert_eq!(r, Ok(()));
    assert_eq!(
        String::from_utf8(w).unwrap(),
        "<main><h1>title</h1><section><p><b>section</b></p></section></main>"
    );
}
