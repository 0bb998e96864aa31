use cobertura::error::ExportError;
use cobertura::rates::{find_text, pending_rates, with_rate_texts};
use cobertura::stats::Rate;
use cobertura::xml::{
    check_events, event_has_text, have_text, render, step_outcome, AttrValue, Attribute, XmlEvent,
};

fn text(key: &str, value: &str) -> Attribute {
    Attribute { key: key.to_string(), value: AttrValue::Text(value.to_string()) }
}

fn rate(key: &str, numerator: u64, denominator: u64) -> Attribute {
    Attribute { key: key.to_string(), value: AttrValue::Rate(Rate { numerator, denominator }) }
}

fn start(name: &str, attributes: Vec<Attribute>) -> XmlEvent {
    XmlEvent::Start { name: name.to_string(), attributes }
}

fn empty(name: &str, attributes: Vec<Attribute>) -> XmlEvent {
    XmlEvent::Empty { name: name.to_string(), attributes }
}

fn end(name: &str) -> XmlEvent {
    XmlEvent::End { name: name.to_string() }
}

fn raw(text: &str) -> XmlEvent {
    XmlEvent::Raw { text: text.to_string() }
}

fn rendered(events: &Vec<XmlEvent>) -> String {
    String::from_utf8(render(events).unwrap()).unwrap()
}

#[test]
fn no_events_give_an_empty_document() {
    assert_eq!(render(&vec![]), Ok(vec![]));
}

#[test]
fn the_first_tag_starts_without_a_line_break() {
    assert_eq!(rendered(&vec![start("a", vec![])]), "<a>");
    assert_eq!(rendered(&vec![empty("a", vec![])]), "<a/>");
    assert_eq!(rendered(&vec![end("a")]), "</a>");
}

#[test]
fn declaration_and_document_type_are_written_out() {
    let events = vec![
        XmlEvent::Decl { version: "1.0".to_string() },
        XmlEvent::DocType { text: " note SYSTEM 'note.dtd'".to_string() },
        empty("note", vec![]),
    ];
    assert_eq!(
        rendered(&events),
        "<?xml version=\"1.0\"?>\n<!DOCTYPE note SYSTEM 'note.dtd'>\n<note/>"
    );
}

#[test]
fn nested_elements_are_indented_by_four_spaces() {
    let events = vec![
        start("a", vec![text("k", "v")]),
        start("b", vec![]),
        empty("c", vec![text("x", "1"), text("y", "2")]),
        end("b"),
        empty("d", vec![]),
        end("a"),
    ];
    assert_eq!(
        rendered(&events),
        "<a k=\"v\">\n    <b>\n        <c x=\"1\" y=\"2\"/>\n    </b>\n    <d/>\n</a>"
    );
}

#[test]
fn attribute_values_are_escaped_and_keys_are_not() {
    let events = vec![empty("e", vec![text("k", "<a href='x'>\"Q&A\"</a>")])];
    assert_eq!(
        rendered(&events),
        "<e k=\"&lt;a href=&apos;x&apos;&gt;&quot;Q&amp;A&quot;&lt;/a&gt;\"/>"
    );
}

#[test]
fn text_beyond_ascii_is_written_in_its_bytes() {
    let events = vec![empty("e", vec![text("k", "größe → 10 €")]), raw("日本")];
    assert_eq!(rendered(&events), "<e k=\"größe → 10 €\"/>日本");
}

#[test]
fn raw_text_follows_the_tag_and_the_end_tag_takes_a_new_line() {
    let events = vec![start("s", vec![]), start("t", vec![]), raw("<.>"), end("t"), end("s")];
    assert_eq!(rendered(&events), "<s>\n    <t><.>\n    </t>\n</s>");
}

#[test]
fn an_end_tag_above_the_top_is_not_indented() {
    let events = vec![start("a", vec![]), end("a"), end("b"), start("c", vec![]), end("c")];
    assert_eq!(rendered(&events), "<a>\n</a>\n</b>\n<c>\n</c>");
}

#[test]
fn events_with_a_rate_are_refused() {
    let events = vec![
        start("a", vec![text("k", "v")]),
        empty("b", vec![text("x", "1"), rate("r", 1, 2)]),
        end("a"),
    ];
    assert_eq!(check_events(&events), Err(ExportError::UnformattedRate));
    assert_eq!(render(&events), Err(ExportError::UnformattedRate));
    assert!(event_has_text(&events[0]));
    assert!(!event_has_text(&events[1]));
    assert!(event_has_text(&events[2]));
    assert!(have_text(&vec![text("a", "b")]));
    assert!(have_text(&vec![]));
    assert!(!have_text(&vec![rate("r", 0, 1), text("a", "b")]));
}

#[test]
fn events_without_a_rate_pass_the_check() {
    assert_eq!(check_events(&vec![start("a", vec![text("k", "v")]), end("a")]), Ok(()));
    assert_eq!(check_events(&vec![]), Ok(()));
}

#[test]
fn rates_are_listed_in_the_order_of_the_document() {
    let events = vec![
        start("a", vec![rate("p", 1, 2), text("k", "v"), rate("q", 3, 4)]),
        raw("x"),
        empty("b", vec![rate("p", 1, 2)]),
        end("a"),
    ];
    let half = Rate { numerator: 1, denominator: 2 };
    assert_eq!(pending_rates(&events), vec![half, Rate { numerator: 3, denominator: 4 }, half]);
    assert_eq!(pending_rates(&vec![]), vec![]);
}

#[test]
fn the_last_entry_of_a_table_counts() {
    let half = Rate { numerator: 1, denominator: 2 };
    let table = vec![
        (half, "0.5".to_string()),
        (Rate { numerator: 2, denominator: 4 }, "two quarters".to_string()),
        (half, "half".to_string()),
    ];
    assert_eq!(find_text(&table, half), Some("half".to_string()));
    assert_eq!(
        find_text(&table, Rate { numerator: 2, denominator: 4 }),
        Some("two quarters".to_string())
    );
    assert_eq!(find_text(&table, Rate { numerator: 1, denominator: 4 }), None);
    assert_eq!(find_text(&vec![], half), None);
}

#[test]
fn rates_are_replaced_by_their_texts() {
    let events = vec![
        XmlEvent::Decl { version: "1.0".to_string() },
        start("a", vec![rate("p", 1, 2), text("k", "v"), rate("q", 3, 4)]),
        raw("x"),
        empty("b", vec![rate("p", 1, 2)]),
        end("a"),
    ];
    let table = vec![(Rate { numerator: 1, denominator: 2 }, "0.5".to_string())];
    let filled = with_rate_texts(&events, &table);
    assert_eq!(
        filled,
        vec![
            XmlEvent::Decl { version: "1.0".to_string() },
            start("a", vec![text("p", "0.5"), text("k", "v"), rate("q", 3, 4)]),
            raw("x"),
            empty("b", vec![text("p", "0.5")]),
            end("a"),
        ]
    );
    assert_eq!(render(&filled), Err(ExportError::UnformattedRate));

    let table = vec![
        (Rate { numerator: 1, denominator: 2 }, "0.5".to_string()),
        (Rate { numerator: 3, denominator: 4 }, "0.75".to_string()),
    ];
    assert_eq!(
        rendered(&with_rate_texts(&events, &table)),
        "<?xml version=\"1.0\"?>\n<a p=\"0.5\" k=\"v\" q=\"0.75\">x\n    <b p=\"0.5\"/>\n</a>"
    );
}

#[test]
fn events_that_pass_the_check_are_rendered() {
    let events = vec![
        XmlEvent::Decl { version: "1.0".to_string() },
        start("a", vec![text("k", "v")]),
        raw("x"),
        end("a"),
    ];
    assert_eq!(check_events(&events), Ok(()));
    assert!(render(&events).is_ok());
    let unbalanced = vec![end("a"), end("b"), start("c", vec![])];
    assert_eq!(check_events(&unbalanced), Ok(()));
    assert!(render(&unbalanced).is_ok());
}

#[test]
fn a_failure_of_the_writer_is_reported_as_such() {
    assert_eq!(step_outcome(Ok(())), Ok(()));
    assert_eq!(step_outcome(Err(quick_xml::Error::UnexpectedBang)), Err(ExportError::Write));
    let failed = std::io::Error::new(std::io::ErrorKind::Other, "full");
    assert_eq!(step_outcome(Err(quick_xml::Error::Io(failed))), Err(ExportError::Write));
}

#[test]
fn errors_say_what_went_wrong() {
    assert_eq!(
        ExportError::Uncountable.message(),
        "the report holds more lines than can be counted"
    );
    assert_eq!(ExportError::UnformattedRate.message(), "a rate of the report has no text yet");
    assert_eq!(ExportError::TooDeep.message(), "the report is nested too deep");
    assert_eq!(ExportError::Write.message(), "the report could not be written");
}
