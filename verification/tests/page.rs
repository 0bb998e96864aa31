use cobertura::xml::{render, AttrValue, Attribute, XmlEvent};

/// What the events are expected to give, written out by hand: a line break
/// and the indentation before every tag but the first, four spaces for each
/// level, and the five special characters escaped in attribute values.
struct Page {
    bytes: Vec<u8>,
    depth: usize,
    breaks: bool,
}

impl Page {
    fn lead(&mut self) {
        if self.breaks {
            self.bytes.push(b'\n');
            self.bytes.extend(std::iter::repeat(b' ').take(4 * self.depth));
        }
    }

    fn tag(&mut self, name: &str, attributes: &[Attribute], close: &str) {
        self.lead();
        self.bytes.push(b'<');
        self.bytes.extend(name.as_bytes());
        for attribute in attributes {
            self.bytes.push(b' ');
            self.bytes.extend(attribute.key.as_bytes());
            self.bytes.extend(b"=\"");
            if let AttrValue::Text(value) = &attribute.value {
                for byte in value.bytes() {
                    match byte {
                        b'<' => self.bytes.extend(b"&lt;"),
                        b'>' => self.bytes.extend(b"&gt;"),
                        b'\'' => self.bytes.extend(b"&apos;"),
                        b'&' => self.bytes.extend(b"&amp;"),
                        b'"' => self.bytes.extend(b"&quot;"),
                        other => self.bytes.push(other),
                    }
                }
            }
            self.bytes.push(b'"');
        }
        self.bytes.extend(close.as_bytes());
    }

    fn add(&mut self, event: &XmlEvent) {
        match event {
            XmlEvent::Decl { version } => {
                self.lead();
                self.bytes.extend(b"<?xml version=\"");
                self.bytes.extend(version.as_bytes());
                self.bytes.extend(b"\"?>");
                self.breaks = true;
            }
            XmlEvent::DocType { text } => {
                self.lead();
                self.bytes.extend(b"<!DOCTYPE");
                self.bytes.extend(text.as_bytes());
                self.bytes.push(b'>');
                self.breaks = true;
            }
            XmlEvent::Start { name, attributes } => {
                self.tag(name, attributes, ">");
                self.depth += 1;
                self.breaks = true;
            }
            XmlEvent::End { name } => {
                self.depth = self.depth.saturating_sub(1);
                self.lead();
                self.bytes.extend(b"</");
                self.bytes.extend(name.as_bytes());
                self.bytes.push(b'>');
                self.breaks = true;
            }
            XmlEvent::Empty { name, attributes } => {
                self.tag(name, attributes, "/>");
                self.breaks = true;
            }
            XmlEvent::Raw { text } => {
                self.bytes.extend(text.as_bytes());
            }
        }
    }
}

fn expected(events: &[XmlEvent]) -> Vec<u8> {
    let mut page = Page { bytes: Vec::new(), depth: 0, breaks: false };
    for event in events {
        page.add(event);
    }
    page.bytes
}

/// A sequence of numbers that looks random and is the same on every run.
struct Numbers(u64);

impl Numbers {
    fn next(&mut self, below: usize) -> usize {
        self.0 = self.0.wrapping_mul(6364136223846793005).wrapping_add(1442695040888963407);
        ((self.0 >> 33) as usize) % below
    }

    fn text(&mut self) -> String {
        let parts = ["a", "line", "<", ">", "&", "'", "\"", " ", "é", "日本", "-", "0.75", "&amp;"];
        let mut text = String::new();
        for _ in 0..self.next(5) {
            text.push_str(parts[self.next(parts.len())]);
        }
        text
    }

    fn name(&mut self) -> String {
        let names = ["coverage", "package", "class", "method", "line", "x"];
        names[self.next(names.len())].to_string()
    }

    fn attributes(&mut self) -> Vec<Attribute> {
        (0..self.next(4))
            .map(|_| Attribute { key: self.name(), value: AttrValue::Text(self.text()) })
            .collect()
    }

    fn event(&mut self) -> XmlEvent {
        match self.next(10) {
            0 => XmlEvent::Decl { version: self.text() },
            1 => XmlEvent::DocType { text: self.text() },
            2 | 3 | 4 => XmlEvent::Start { name: self.name(), attributes: self.attributes() },
            5 | 6 => XmlEvent::End { name: self.name() },
            7 | 8 => XmlEvent::Empty { name: self.name(), attributes: self.attributes() },
            _ => XmlEvent::Raw { text: self.text() },
        }
    }
}

#[test]
fn the_writer_puts_out_what_the_events_say() {
    let mut numbers = Numbers(2024);
    for _ in 0..500 {
        let events: Vec<XmlEvent> = (0..numbers.next(40)).map(|_| numbers.event()).collect();
        assert_eq!(render(&events), Ok(expected(&events)), "{:?}", events);
    }
}

#[test]
fn deep_nesting_is_indented_level_by_level() {
    let mut events = Vec::new();
    for _ in 0..200 {
        events.push(XmlEvent::Start { name: "n".to_string(), attributes: vec![] });
    }
    for _ in 0..200 {
        events.push(XmlEvent::End { name: "n".to_string() });
    }
    let document = render(&events).unwrap();
    assert_eq!(document, expected(&events));
    let deepest = format!("\n{}<n>\n{}</n>", " ".repeat(4 * 199), " ".repeat(4 * 199));
    assert!(String::from_utf8(document).unwrap().contains(&deepest));
}
