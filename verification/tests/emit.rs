use cobertura::emit::{document, write_class, write_lines, write_method, write_package};
use cobertura::stats::Rate;
use cobertura::tree::{Class, Condition, ConditionType, Coverage, Line, Method, Package};
use cobertura::xml::{AttrValue, Attribute, XmlEvent};

fn text(key: &str, value: &str) -> Attribute {
    Attribute { key: key.to_string(), value: AttrValue::Text(value.to_string()) }
}

fn rate(key: &str, numerator: u64, denominator: u64) -> Attribute {
    Attribute { key: key.to_string(), value: AttrValue::Rate(Rate { numerator, denominator }) }
}

fn start(name: &str, attributes: Vec<Attribute>) -> XmlEvent {
    XmlEvent::Start { name: name.to_string(), attributes }
}

fn end(name: &str) -> XmlEvent {
    XmlEvent::End { name: name.to_string() }
}

fn rates(lines: (u64, u64), branches: (u64, u64)) -> Vec<Attribute> {
    vec![
        rate("line-rate", lines.0, lines.1),
        rate("branch-rate", branches.0, branches.1),
        text("complexity", "0"),
    ]
}

fn with(mut attributes: Vec<Attribute>, more: Vec<Attribute>) -> Vec<Attribute> {
    attributes.extend(more);
    attributes
}

fn branch_line() -> Line {
    Line::Branch {
        number: 4,
        hits: 3,
        conditions: vec![
            Condition { number: 0, cond_type: ConditionType::Jump, covered: true },
            Condition { number: 1, cond_type: ConditionType::Jump, covered: false },
        ],
    }
}

fn branch_line_events() -> Vec<XmlEvent> {
    vec![
        start("line", vec![text("number", "4"), text("hits", "3"), text("branch", "true")]),
        start("conditions", vec![]),
        XmlEvent::Empty {
            name: "condition".to_string(),
            attributes: vec![text("number", "0"), text("type", "jump"), text("coverage", "1")],
        },
        XmlEvent::Empty {
            name: "condition".to_string(),
            attributes: vec![text("number", "1"), text("type", "jump"), text("coverage", "0")],
        },
        end("conditions"),
        end("line"),
    ]
}

fn plain_line_events(number: &str, hits: &str) -> Vec<XmlEvent> {
    vec![start("line", vec![text("number", number), text("hits", hits)]), end("line")]
}

fn lines_block(inner: Vec<Vec<XmlEvent>>) -> Vec<XmlEvent> {
    let mut events = vec![start("lines", vec![])];
    events.extend(inner.into_iter().flatten());
    events.push(end("lines"));
    events
}

fn sample_method() -> Method {
    Method {
        name: "f".to_string(),
        signature: String::new(),
        lines: vec![Line::Plain { number: 2, hits: 0 }, branch_line()],
    }
}

fn sample_method_events() -> Vec<XmlEvent> {
    let mut events =
        vec![start("method", with(vec![text("name", "f"), text("signature", "")], rates((1, 2), (1, 2))))];
    events.extend(lines_block(vec![plain_line_events("2", "0"), branch_line_events()]));
    events.push(end("method"));
    events
}

fn sample_class() -> Class {
    Class {
        name: "c".to_string(),
        file_name: "c.rs".to_string(),
        lines: vec![Line::Plain { number: 1, hits: 9 }],
        methods: vec![sample_method()],
    }
}

fn sample_class_events() -> Vec<XmlEvent> {
    let mut events = vec![
        start("class", with(vec![text("name", "c"), text("filename", "c.rs")], rates((2, 3), (1, 2)))),
        start("methods", vec![]),
    ];
    events.extend(sample_method_events());
    events.push(end("methods"));
    events.extend(lines_block(vec![plain_line_events("1", "9")]));
    events.push(end("class"));
    events
}

fn sample_package_events() -> Vec<XmlEvent> {
    let mut events = vec![
        start("package", with(vec![text("name", "c.rs")], rates((2, 3), (1, 2)))),
        start("classes", vec![]),
    ];
    events.extend(sample_class_events());
    events.push(end("classes"));
    events.push(end("package"));
    events
}

#[test]
fn lines_are_laid_out_after_what_is_there() {
    let mut events = vec![end("before")];
    write_lines(&mut events, &vec![Line::Plain { number: 7, hits: 12 }, branch_line()]);
    let mut expected = vec![end("before")];
    expected.extend(lines_block(vec![plain_line_events("7", "12"), branch_line_events()]));
    assert_eq!(events, expected);
}

#[test]
fn no_lines_give_an_empty_lines_element() {
    let mut events = Vec::new();
    write_lines(&mut events, &vec![]);
    assert_eq!(events, vec![start("lines", vec![]), end("lines")]);
}

#[test]
fn a_method_is_laid_out_with_its_rates_and_lines() {
    let mut events = Vec::new();
    assert_eq!(write_method(&mut events, &sample_method()), Ok(()));
    assert_eq!(events, sample_method_events());
}

#[test]
fn a_method_without_lines_has_zero_rates() {
    let mut events = Vec::new();
    let method = Method { name: "g".to_string(), signature: String::new(), lines: vec![] };
    assert_eq!(write_method(&mut events, &method), Ok(()));
    assert_eq!(
        events[0],
        start("method", with(vec![text("name", "g"), text("signature", "")], rates((0, 1), (0, 1))))
    );
}

#[test]
fn a_class_is_laid_out_with_its_methods_and_then_its_own_lines() {
    let mut events = Vec::new();
    assert_eq!(write_class(&mut events, &sample_class()), Ok(()));
    assert_eq!(events, sample_class_events());
}

#[test]
fn a_package_is_laid_out_with_its_classes() {
    let mut events = Vec::new();
    let package = Package { name: "c.rs".to_string(), classes: vec![sample_class()] };
    assert_eq!(write_package(&mut events, &package), Ok(()));
    assert_eq!(events, sample_package_events());
}

#[test]
fn a_report_is_laid_out_in_the_order_of_the_schema() {
    let coverage = Coverage {
        sources: vec![".".to_string()],
        packages: vec![Package { name: "c.rs".to_string(), classes: vec![sample_class()] }],
    };
    let mut expected = vec![
        XmlEvent::Decl { version: "1.0".to_string() },
        XmlEvent::DocType {
            text: " coverage SYSTEM 'http://cobertura.sourceforge.net/xml/coverage-04.dtd'"
                .to_string(),
        },
        start(
            "coverage",
            vec![
                text("lines-covered", "2"),
                text("lines-valid", "3"),
                rate("line-rate", 2, 3),
                text("branches-covered", "1"),
                text("branches-valid", "2"),
                rate("branch-rate", 1, 2),
                text("complexity", "0"),
                text("version", "1.9"),
                text("timestamp", "42"),
            ],
        ),
        start("sources", vec![]),
        start("source", vec![]),
        XmlEvent::Raw { text: ".".to_string() },
        end("source"),
        end("sources"),
        start("packages", vec![]),
    ];
    expected.extend(sample_package_events());
    expected.push(end("packages"));
    expected.push(end("coverage"));
    assert_eq!(document(&coverage, 42), Ok(expected));
}
