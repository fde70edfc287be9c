use table_codec::xmltok::{unescape_chars, XmlCursor, XmlEvent};

fn chars(s: &str) -> Vec<char> {
    s.chars().collect()
}

fn text_of(v: &[char]) -> String {
    v.iter().collect()
}

#[test]
fn unescape_named_entities() {
    let r = unescape_chars(&chars("a &lt;&gt;&amp;&apos;&quot; z")).unwrap();
    assert_eq!(text_of(&r), "a <>&'\" z");
}

#[test]
fn unescape_numeric_references() {
    let r = unescape_chars(&chars("&#65;&#x42;&#x63;")).unwrap();
    assert_eq!(text_of(&r), "ABc");
}

#[test]
fn unescape_rejects_unknown_entities() {
    assert!(unescape_chars(&chars("&bad;")).is_none());
    assert!(unescape_chars(&chars("a & b")).is_none());
    assert!(unescape_chars(&chars("&#xD800;")).is_none());
}

#[test]
fn cursor_walks_a_small_document() {
    let mut cur = XmlCursor::new(chars("<?xml version=\"1.0\"?><a x=\"1&amp;2\">hi</a>"));
    match cur.next_event().unwrap() {
        XmlEvent::Skip => {},
        other => panic!("expected the declaration to be skipped, got {:?}", kind(&other)),
    }
    match cur.next_event().unwrap() {
        XmlEvent::Start { name, attrs } => {
            assert_eq!(text_of(&name), "a");
            assert_eq!(attrs.len(), 1);
            assert_eq!(text_of(&attrs[0].0), "x");
            assert_eq!(text_of(&attrs[0].1), "1&2");
        },
        other => panic!("expected a start tag, got {:?}", kind(&other)),
    }
    match cur.next_event().unwrap() {
        XmlEvent::Text { text } => assert_eq!(text_of(&text), "hi"),
        other => panic!("expected text, got {:?}", kind(&other)),
    }
    match cur.next_event().unwrap() {
        XmlEvent::End { name } => assert_eq!(text_of(&name), "a"),
        other => panic!("expected an end tag, got {:?}", kind(&other)),
    }
    match cur.next_event().unwrap() {
        XmlEvent::Eof => {},
        other => panic!("expected the end of input, got {:?}", kind(&other)),
    }
}

#[test]
fn cursor_reports_self_closing_tags() {
    let mut cur = XmlCursor::new(chars("<r><c t=\"s\"/></r>"));
    match cur.next_event().unwrap() {
        XmlEvent::Start { name, .. } => assert_eq!(text_of(&name), "r"),
        other => panic!("expected a start tag, got {:?}", kind(&other)),
    }
    match cur.next_event().unwrap() {
        XmlEvent::Empty { name, attrs } => {
            assert_eq!(text_of(&name), "c");
            assert_eq!(text_of(&attrs[0].0), "t");
            assert_eq!(text_of(&attrs[0].1), "s");
        },
        other => panic!("expected a self-closing tag, got {:?}", kind(&other)),
    }
}

#[test]
fn cursor_skips_comments_and_whitespace() {
    let mut cur = XmlCursor::new(chars("<a>  \n  <!-- note --></a>"));
    match cur.next_event().unwrap() {
        XmlEvent::Start { .. } => {},
        other => panic!("expected a start tag, got {:?}", kind(&other)),
    }
    match cur.next_event().unwrap() {
        XmlEvent::Skip => {},
        other => panic!("expected white space to be skipped, got {:?}", kind(&other)),
    }
    match cur.next_event().unwrap() {
        XmlEvent::Skip => {},
        other => panic!("expected the comment to be skipped, got {:?}", kind(&other)),
    }
    match cur.next_event().unwrap() {
        XmlEvent::End { .. } => {},
        other => panic!("expected an end tag, got {:?}", kind(&other)),
    }
}

#[test]
fn cursor_errors_on_unclosed_markup() {
    let mut cur = XmlCursor::new(chars("<a attr=\"v"));
    assert!(cur.next_event().is_err());
}

#[test]
fn cursor_keeps_quoted_angle_brackets_in_attributes() {
    let mut cur = XmlCursor::new(chars("<a x=\"1>2\">t</a>"));
    match cur.next_event().unwrap() {
        XmlEvent::Start { name, attrs } => {
            assert_eq!(text_of(&name), "a");
            assert_eq!(text_of(&attrs[0].1), "1>2");
        },
        other => panic!("expected a start tag, got {:?}", kind(&other)),
    }
    match cur.next_event().unwrap() {
        XmlEvent::Text { text } => assert_eq!(text_of(&text), "t"),
        other => panic!("expected text, got {:?}", kind(&other)),
    }
}

fn kind(e: &XmlEvent) -> &'static str {
    match e {
        XmlEvent::Start { .. } => "start",
        XmlEvent::Empty { .. } => "empty",
        XmlEvent::End { .. } => "end",
        XmlEvent::Text { .. } => "text",
        XmlEvent::Skip => "skip",
        XmlEvent::Eof => "eof",
    }
}

#[test]
fn cursor_skips_character_data_sections() {
    // the bracketed body may hold a bare `>` without ending the section
    let mut cur = XmlCursor::new(chars("<a><![CDATA[x > y]]>t</a>"));
    match cur.next_event().unwrap() {
        XmlEvent::Start { .. } => {},
        other => panic!("expected a start tag, got {:?}", kind(&other)),
    }
    match cur.next_event().unwrap() {
        XmlEvent::Skip => {},
        other => panic!("expected the section to be skipped, got {:?}", kind(&other)),
    }
    match cur.next_event().unwrap() {
        XmlEvent::Text { text } => assert_eq!(text_of(&text), "t"),
        other => panic!("expected text, got {:?}", kind(&other)),
    }
    match cur.next_event().unwrap() {
        XmlEvent::End { .. } => {},
        other => panic!("expected an end tag, got {:?}", kind(&other)),
    }
}

#[test]
fn cursor_errors_on_unclosed_character_data() {
    let mut cur = XmlCursor::new(chars("<![CDATA[never closed"));
    assert!(cur.next_event().is_err());
}
