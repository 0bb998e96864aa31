//! The report tree laid out as the events of a Cobertura document.

use crate::decimal::{decimal, decimal_digits};
use crate::error::ExportError;
use crate::aggregate::{classes_fit, methods_fit, packages_fit};
use crate::stats::{rate_of, stats_of, CoverageStats, Rate};
use crate::tree::{
    class_views, line_views, method_views, package_views, string_views, Class, ClassView,
    Condition, Coverage, CoverageView, Line, LineView, Method, MethodView, Package, PackageView,
};
use crate::xml::{
    attribute_views, event_views, AttrValue, AttrValueView, Attribute, AttributeView, XmlEvent,
    XmlEventView,
};
use vstd::prelude::*;

verus! {

/// An attribute with a text for its value.
pub open spec fn text_attr(key: Seq<char>, value: Seq<char>) -> AttributeView {
    AttributeView { key, value: AttrValueView::Text(value) }
}

/// An attribute with a number for its value, in decimal digits.
pub open spec fn count_attr(key: Seq<char>, n: u64) -> AttributeView {
    text_attr(key, decimal_digits(n as nat))
}

/// An attribute with a rate for its value.
pub open spec fn rate_attr(key: Seq<char>, rate: Rate) -> AttributeView {
    AttributeView { key, value: AttrValueView::Rate(rate) }
}

/// A start tag without attributes.
pub open spec fn open_tag(name: Seq<char>) -> XmlEventView {
    XmlEventView::Start { name, attributes: Seq::empty() }
}

/// An end tag.
pub open spec fn close_tag(name: Seq<char>) -> XmlEventView {
    XmlEventView::End { name }
}

/// The attributes that every level of the report ends with: line rate,
/// branch rate and complexity.
pub open spec fn rate_attrs(stats: CoverageStats) -> Seq<AttributeView> {
    seq![
        rate_attr("line-rate"@, rate_of(stats.lines_covered, stats.lines_valid)),
        rate_attr("branch-rate"@, rate_of(stats.branches_covered, stats.branches_valid)),
        count_attr("complexity"@, stats.complexity),
    ]
}

/// The element of one condition of a branch line.
pub open spec fn condition_event(condition: Condition) -> XmlEventView {
    XmlEventView::Empty {
        name: "condition"@,
        attributes: seq![
            count_attr("number"@, condition.number as u64),
            text_attr("type"@, condition.cond_type.text()),
            text_attr(
                "coverage"@,
                if condition.covered {
                    "1"@
                } else {
                    "0"@
                },
            ),
        ],
    }
}

/// The elements of the conditions, in their order.
pub open spec fn conditions_events(conditions: Seq<Condition>) -> Seq<XmlEventView> {
    Seq::new(conditions.len(), |i: int| condition_event(conditions[i]))
}

/// The element of a line: number and hits, and for a branch line the mark
/// `branch="true"` and the conditions.
pub open spec fn line_events(line: LineView) -> Seq<XmlEventView> {
    match line {
        LineView::Plain { number, hits } => seq![
            XmlEventView::Start {
                name: "line"@,
                attributes: seq![count_attr("number"@, number as u64), count_attr("hits"@, hits)],
            },
            close_tag("line"@),
        ],
        LineView::Branch { number, hits, conditions } => seq![
            XmlEventView::Start {
                name: "line"@,
                attributes: seq![
                    count_attr("number"@, number as u64),
                    count_attr("hits"@, hits),
                    text_attr("branch"@, "true"@),
                ],
            },
            open_tag("conditions"@),
        ] + conditions_events(conditions) + seq![close_tag("conditions"@), close_tag("line"@)],
    }
}

/// The elements of the lines, one after the other.
pub open spec fn each_line_events(lines: Seq<LineView>) -> Seq<XmlEventView>
    decreases lines.len(),
{
    if lines.len() == 0 {
        Seq::empty()
    } else {
        each_line_events(lines.drop_last()) + line_events(lines.last())
    }
}

/// The `lines` element that holds the given lines.
pub open spec fn lines_events(lines: Seq<LineView>) -> Seq<XmlEventView> {
    seq![open_tag("lines"@)] + each_line_events(lines) + seq![close_tag("lines"@)]
}

/// The element of a method: name, signature and rates, and its lines.
pub open spec fn method_events(method: MethodView) -> Seq<XmlEventView> {
    seq![
        XmlEventView::Start {
            name: "method"@,
            attributes: seq![
                text_attr("name"@, method.name),
                text_attr("signature"@, method.signature),
            ] + rate_attrs(stats_of(method.leaves())),
        },
    ] + lines_events(method.lines) + seq![close_tag("method"@)]
}

pub open spec fn each_method_events(methods: Seq<MethodView>) -> Seq<XmlEventView>
    decreases methods.len(),
{
    if methods.len() == 0 {
        Seq::empty()
    } else {
        each_method_events(methods.drop_last()) + method_events(methods.last())
    }
}

/// The element of a class: name, file name and rates, its methods, and the
/// lines that no method owns.
pub open spec fn class_events(class: ClassView) -> Seq<XmlEventView> {
    seq![
        XmlEventView::Start {
            name: "class"@,
            attributes: seq![
                text_attr("name"@, class.name),
                text_attr("filename"@, class.file_name),
            ] + rate_attrs(stats_of(class.leaves())),
        },
        open_tag("methods"@),
    ] + each_method_events(class.methods) + seq![close_tag("methods"@)] + lines_events(
        class.lines,
    ) + seq![close_tag("class"@)]
}

pub open spec fn each_class_events(classes: Seq<ClassView>) -> Seq<XmlEventView>
    decreases classes.len(),
{
    if classes.len() == 0 {
        Seq::empty()
    } else {
        each_class_events(classes.drop_last()) + class_events(classes.last())
    }
}

/// The element of a package: name and rates, and its classes.
pub open spec fn package_events(package: PackageView) -> Seq<XmlEventView> {
    seq![
        XmlEventView::Start {
            name: "package"@,
            attributes: seq![text_attr("name"@, package.name)] + rate_attrs(
                stats_of(package.leaves()),
            ),
        },
        open_tag("classes"@),
    ] + each_class_events(package.classes) + seq![close_tag("classes"@), close_tag("package"@)]
}

pub open spec fn each_package_events(packages: Seq<PackageView>) -> Seq<XmlEventView>
    decreases packages.len(),
{
    if packages.len() == 0 {
        Seq::empty()
    } else {
        each_package_events(packages.drop_last()) + package_events(packages.last())
    }
}

/// The element of one source root, with the root as its text.
pub open spec fn source_events(source: Seq<char>) -> Seq<XmlEventView> {
    seq![open_tag("source"@), XmlEventView::Raw { text: source }, close_tag("source"@)]
}

pub open spec fn each_source_events(sources: Seq<Seq<char>>) -> Seq<XmlEventView>
    decreases sources.len(),
{
    if sources.len() == 0 {
        Seq::empty()
    } else {
        each_source_events(sources.drop_last()) + source_events(sources.last())
    }
}

/// The attributes of the root element, in the order of the schema.
pub open spec fn root_attrs(stats: CoverageStats, timestamp: u64) -> Seq<AttributeView> {
    seq![
        count_attr("lines-covered"@, stats.lines_covered),
        count_attr("lines-valid"@, stats.lines_valid),
        rate_attr("line-rate"@, rate_of(stats.lines_covered, stats.lines_valid)),
        count_attr("branches-covered"@, stats.branches_covered),
        count_attr("branches-valid"@, stats.branches_valid),
        rate_attr("branch-rate"@, rate_of(stats.branches_covered, stats.branches_valid)),
        text_attr("complexity"@, "0"@),
        text_attr("version"@, "1.9"@),
        count_attr("timestamp"@, timestamp),
    ]
}

/// What follows the keyword of the document type.
pub open spec fn doctype_text() -> Seq<char> {
    " coverage SYSTEM 'http://cobertura.sourceforge.net/xml/coverage-04.dtd'"@
}

/// The whole document: declaration, document type, and the root element
/// with the source roots and the packages.
pub open spec fn document_events(coverage: CoverageView, timestamp: u64) -> Seq<XmlEventView> {
    seq![
        XmlEventView::Decl { version: "1.0"@ },
        XmlEventView::DocType { text: doctype_text() },
        XmlEventView::Start {
            name: "coverage"@,
            attributes: root_attrs(stats_of(coverage.leaves()), timestamp),
        },
        open_tag("sources"@),
    ] + each_source_events(coverage.sources) + seq![close_tag("sources"@), open_tag("packages"@)]
        + each_package_events(coverage.packages) + seq![
        close_tag("packages"@),
        close_tag("coverage"@),
    ]
}

/// What laying out a report returns: its events where the lines and
/// conditions of every level can be counted, the reason otherwise.
pub open spec fn document_outcome(coverage: CoverageView, timestamp: u64) -> Result<
    Seq<XmlEventView>,
    ExportError,
> {
    if coverage.fits() {
        Ok(document_events(coverage, timestamp))
    } else {
        Err(ExportError::Uncountable)
    }
}

/// The events of a layout, where there are any.
pub open spec fn events_view(result: Result<Vec<XmlEvent>, ExportError>) -> Result<
    Seq<XmlEventView>,
    ExportError,
> {
    match result {
        Ok(events) => Ok(event_views(events@)),
        Err(e) => Err(e),
    }
}

fn text_attribute(key: &str, value: String) -> (attribute: Attribute)
    ensures
        attribute@ == text_attr(key@, value@),
{
    Attribute { key: key.to_owned(), value: AttrValue::Text(value) }
}

fn count_attribute(key: &str, n: u64) -> (attribute: Attribute)
    ensures
        attribute@ == count_attr(key@, n),
{
    Attribute { key: key.to_owned(), value: AttrValue::Text(decimal(n)) }
}

fn rate_attribute(key: &str, rate: Rate) -> (attribute: Attribute)
    ensures
        attribute@ == rate_attr(key@, rate),
{
    Attribute { key: key.to_owned(), value: AttrValue::Rate(rate) }
}

fn push_attr(attributes: &mut Vec<Attribute>, attribute: Attribute)
    ensures
        attribute_views(final(attributes)@) == attribute_views(old(attributes)@).push(attribute@),
{
    attributes.push(attribute);
    assert(attribute_views(attributes@) =~= attribute_views(old(attributes)@).push(attribute@));
}

fn push_event(events: &mut Vec<XmlEvent>, event: XmlEvent)
    ensures
        event_views(final(events)@) == event_views(old(events)@).push(event@),
{
    events.push(event);
    assert(event_views(events@) =~= event_views(old(events)@).push(event@));
}

fn push_start(events: &mut Vec<XmlEvent>, name: &str, attributes: Vec<Attribute>)
    ensures
        event_views(final(events)@) == event_views(old(events)@).push(
            XmlEventView::Start { name: name@, attributes: attribute_views(attributes@) },
        ),
{
    push_event(events, XmlEvent::Start { name: name.to_owned(), attributes });
}

fn push_open(events: &mut Vec<XmlEvent>, name: &str)
    ensures
        event_views(final(events)@) == event_views(old(events)@).push(open_tag(name@)),
{
    let attributes: Vec<Attribute> = Vec::new();
    assert(attribute_views(attributes@) =~= Seq::<AttributeView>::empty());
    push_start(events, name, attributes);
}

fn push_close(events: &mut Vec<XmlEvent>, name: &str)
    ensures
        event_views(final(events)@) == event_views(old(events)@).push(close_tag(name@)),
{
    push_event(events, XmlEvent::End { name: name.to_owned() });
}

/// Adds line rate, branch rate and complexity to the attributes.
fn push_rates(attributes: &mut Vec<Attribute>, stats: &CoverageStats)
    ensures
        attribute_views(final(attributes)@) == attribute_views(old(attributes)@) + rate_attrs(
            *stats,
        ),
{
    push_attr(attributes, rate_attribute("line-rate", stats.line_rate()));
    push_attr(attributes, rate_attribute("branch-rate", stats.branch_rate()));
    push_attr(attributes, count_attribute("complexity", stats.complexity));
    assert(attribute_views(attributes@) =~= attribute_views(old(attributes)@) + rate_attrs(
        *stats,
    ));
}

fn write_condition(events: &mut Vec<XmlEvent>, condition: &Condition)
    ensures
        event_views(final(events)@) == event_views(old(events)@).push(
            condition_event(*condition),
        ),
{
    let mut attributes: Vec<Attribute> = Vec::new();
    assert(attribute_views(attributes@) =~= Seq::<AttributeView>::empty());
    push_attr(&mut attributes, count_attribute("number", condition.number as u64));
    push_attr(&mut attributes, text_attribute("type", condition.cond_type.to_string()));
    let coverage = if condition.covered {
        "1"
    } else {
        "0"
    };
    push_attr(&mut attributes, text_attribute("coverage", coverage.to_owned()));
    assert(attribute_views(attributes@) =~= condition_event(*condition)->Empty_attributes);
    push_event(events, XmlEvent::Empty { name: "condition".to_owned(), attributes });
}

fn write_line(events: &mut Vec<XmlEvent>, line: &Line)
    ensures
        event_views(final(events)@) == event_views(old(events)@) + line_events(line@),
{
    let ghost before = event_views(events@);
    let mut attributes: Vec<Attribute> = Vec::new();
    assert(attribute_views(attributes@) =~= Seq::<AttributeView>::empty());
    match line {
        Line::Plain { number, hits } => {
            push_attr(&mut attributes, count_attribute("number", *number as u64));
            push_attr(&mut attributes, count_attribute("hits", *hits));
            assert(attribute_views(attributes@) =~= seq![
                count_attr("number"@, *number as u64),
                count_attr("hits"@, *hits),
            ]);
            push_start(events, "line", attributes);
            push_close(events, "line");
            assert(event_views(events@) =~= before + line_events(line@));
        },
        Line::Branch { number, hits, conditions } => {
            push_attr(&mut attributes, count_attribute("number", *number as u64));
            push_attr(&mut attributes, count_attribute("hits", *hits));
            push_attr(&mut attributes, text_attribute("branch", "true".to_owned()));
            assert(attribute_views(attributes@) =~= seq![
                count_attr("number"@, *number as u64),
                count_attr("hits"@, *hits),
                text_attr("branch"@, "true"@),
            ]);
            push_start(events, "line", attributes);
            push_open(events, "conditions");
            let ghost opened = event_views(events@);
            let mut i: usize = 0;
            while i < conditions.len()
                invariant
                    i <= conditions.len(),
                    event_views(events@) == opened + conditions_events(conditions@.take(i as int)),
                decreases conditions.len() - i,
            {
                write_condition(events, &conditions[i]);
                i = i + 1;
                assert(event_views(events@) =~= opened + conditions_events(
                    conditions@.take(i as int),
                ));
            }
            assert(conditions@.take(i as int) =~= conditions@);
            push_close(events, "conditions");
            push_close(events, "line");
            assert(event_views(events@) =~= before + line_events(line@));
        },
    }
}

/// Adds the `lines` element of the given lines to the events.
pub fn write_lines(events: &mut Vec<XmlEvent>, lines: &Vec<Line>)
    ensures
        event_views(final(events)@) == event_views(old(events)@) + lines_events(
            line_views(lines@),
        ),
{
    let ghost before = event_views(events@);
    let ghost views = line_views(lines@);
    push_open(events, "lines");
    let ghost opened = event_views(events@);
    let mut i: usize = 0;
    while i < lines.len()
        invariant
            i <= lines.len(),
            views == line_views(lines@),
            event_views(events@) == opened + each_line_events(views.take(i as int)),
        decreases lines.len() - i,
    {
        assert(views.take(i + 1).drop_last() =~= views.take(i as int));
        assert(views.take(i + 1).last() == lines@[i as int]@);
        write_line(events, &lines[i]);
        i = i + 1;
        assert(event_views(events@) =~= opened + each_line_events(views.take(i as int)));
    }
    assert(views.take(i as int) =~= views);
    push_close(events, "lines");
    assert(event_views(events@) =~= before + lines_events(views));
}

/// Adds the element of a method to the events, where its lines can be
/// counted; leaves the events as they are where they cannot.
pub fn write_method(events: &mut Vec<XmlEvent>, method: &Method) -> (done: Result<(), ExportError>)
    ensures
        done is Ok <==> method@.fits(),
        done is Ok ==> event_views(final(events)@) == event_views(old(events)@) + method_events(
            method@,
        ),
        done matches Err(e) ==> e == ExportError::Uncountable && final(events)@ == old(events)@,
{
    let ghost before = event_views(events@);
    let stats = match method.get_stats() {
        Some(stats) => stats,
        None => {
            return Err(ExportError::Uncountable);
        },
    };
    let mut attributes: Vec<Attribute> = Vec::new();
    assert(attribute_views(attributes@) =~= Seq::<AttributeView>::empty());
    push_attr(&mut attributes, text_attribute("name", method.name.clone()));
    push_attr(&mut attributes, text_attribute("signature", method.signature.clone()));
    push_rates(&mut attributes, &stats);
    assert(attribute_views(attributes@) =~= seq![
        text_attr("name"@, method@.name),
        text_attr("signature"@, method@.signature),
    ] + rate_attrs(stats_of(method@.leaves())));
    push_start(events, "method", attributes);
    write_lines(events, &method.lines);
    push_close(events, "method");
    assert(event_views(events@) =~= before + method_events(method@));
    Ok(())
}

/// Adds the element of a class to the events, where its lines and those of
/// each of its methods can be counted; leaves the events as they are where
/// they cannot.
pub fn write_class(events: &mut Vec<XmlEvent>, class: &Class) -> (done: Result<(), ExportError>)
    ensures
        done is Ok <==> class@.fits(),
        done is Ok ==> event_views(final(events)@) == event_views(old(events)@) + class_events(
            class@,
        ),
        done matches Err(e) ==> e == ExportError::Uncountable && final(events)@ == old(events)@,
{
    let ghost before = event_views(events@);
    let ghost views = method_views(class.methods@);
    let stats = match class.get_stats() {
        Some(stats) => stats,
        None => {
            return Err(ExportError::Uncountable);
        },
    };
    if !methods_fit(&class.methods) {
        return Err(ExportError::Uncountable);
    }
    let mut attributes: Vec<Attribute> = Vec::new();
    assert(attribute_views(attributes@) =~= Seq::<AttributeView>::empty());
    push_attr(&mut attributes, text_attribute("name", class.name.clone()));
    push_attr(&mut attributes, text_attribute("filename", class.file_name.clone()));
    push_rates(&mut attributes, &stats);
    assert(attribute_views(attributes@) =~= seq![
        text_attr("name"@, class@.name),
        text_attr("filename"@, class@.file_name),
    ] + rate_attrs(stats_of(class@.leaves())));
    push_start(events, "class", attributes);
    push_open(events, "methods");
    let ghost opened = event_views(events@);
    let mut i: usize = 0;
    while i < class.methods.len()
        invariant
            i <= class.methods.len(),
            views == method_views(class.methods@),
            class@.fits(),
            event_views(events@) == opened + each_method_events(views.take(i as int)),
        decreases class.methods.len() - i,
    {
        proof {
            assert(views.take(i + 1).drop_last() =~= views.take(i as int));
            assert(views.take(i + 1).last() == class.methods@[i as int]@);
            assert(views[i as int].fits());
        }
        match write_method(events, &class.methods[i]) {
            Ok(()) => {},
            Err(e) => {
                return Err(e);
            },
        }
        i = i + 1;
        assert(event_views(events@) =~= opened + each_method_events(views.take(i as int)));
    }
    assert(views.take(i as int) =~= views);
    push_close(events, "methods");
    write_lines(events, &class.lines);
    push_close(events, "class");
    assert(event_views(events@) =~= before + class_events(class@));
    Ok(())
}

/// Adds the element of a package to the events, where the lines of every
/// level of it can be counted; leaves the events as they are where they
/// cannot.
pub fn write_package(events: &mut Vec<XmlEvent>, package: &Package) -> (done: Result<
    (),
    ExportError,
>)
    ensures
        done is Ok <==> package@.fits(),
        done is Ok ==> event_views(final(events)@) == event_views(old(events)@) + package_events(
            package@,
        ),
        done matches Err(e) ==> e == ExportError::Uncountable && final(events)@ == old(events)@,
{
    let ghost before = event_views(events@);
    let ghost views = class_views(package.classes@);
    let stats = match package.get_stats() {
        Some(stats) => stats,
        None => {
            return Err(ExportError::Uncountable);
        },
    };
    if !classes_fit(&package.classes) {
        return Err(ExportError::Uncountable);
    }
    let mut attributes: Vec<Attribute> = Vec::new();
    assert(attribute_views(attributes@) =~= Seq::<AttributeView>::empty());
    push_attr(&mut attributes, text_attribute("name", package.name.clone()));
    push_rates(&mut attributes, &stats);
    assert(attribute_views(attributes@) =~= seq![text_attr("name"@, package@.name)] + rate_attrs(
        stats_of(package@.leaves()),
    ));
    push_start(events, "package", attributes);
    push_open(events, "classes");
    let ghost opened = event_views(events@);
    let mut i: usize = 0;
    while i < package.classes.len()
        invariant
            i <= package.classes.len(),
            views == class_views(package.classes@),
            package@.fits(),
            event_views(events@) == opened + each_class_events(views.take(i as int)),
        decreases package.classes.len() - i,
    {
        proof {
            assert(views.take(i + 1).drop_last() =~= views.take(i as int));
            assert(views.take(i + 1).last() == package.classes@[i as int]@);
            assert(views[i as int].fits());
        }
        match write_class(events, &package.classes[i]) {
            Ok(()) => {},
            Err(e) => {
                return Err(e);
            },
        }
        i = i + 1;
        assert(event_views(events@) =~= opened + each_class_events(views.take(i as int)));
    }
    assert(views.take(i as int) =~= views);
    push_close(events, "classes");
    push_close(events, "package");
    assert(event_views(events@) =~= before + package_events(package@));
    Ok(())
}

/// Adds the `sources` element with the given source roots to the events.
fn write_sources(events: &mut Vec<XmlEvent>, sources: &Vec<String>)
    ensures
        event_views(final(events)@) == event_views(old(events)@) + seq![open_tag("sources"@)]
            + each_source_events(string_views(sources@)) + seq![close_tag("sources"@)],
{
    let ghost before = event_views(events@);
    let ghost views = string_views(sources@);
    push_open(events, "sources");
    let ghost opened = event_views(events@);
    let mut i: usize = 0;
    while i < sources.len()
        invariant
            i <= sources.len(),
            views == string_views(sources@),
            event_views(events@) == opened + each_source_events(views.take(i as int)),
        decreases sources.len() - i,
    {
        assert(views.take(i + 1).drop_last() =~= views.take(i as int));
        assert(views.take(i + 1).last() == sources@[i as int]@);
        push_open(events, "source");
        push_event(events, XmlEvent::Raw { text: sources[i].clone() });
        push_close(events, "source");
        i = i + 1;
        assert(event_views(events@) =~= opened + each_source_events(views.take(i as int)));
    }
    assert(views.take(i as int) =~= views);
    push_close(events, "sources");
    assert(event_views(events@) =~= before + seq![open_tag("sources"@)] + each_source_events(
        views,
    ) + seq![close_tag("sources"@)]);
}

/// The attributes of the root element.
fn root_attributes(stats: &CoverageStats, timestamp: u64) -> (attributes: Vec<Attribute>)
    ensures
        attribute_views(attributes@) == root_attrs(*stats, timestamp),
{
    let mut attributes: Vec<Attribute> = Vec::new();
    assert(attribute_views(attributes@) =~= Seq::<AttributeView>::empty());
    push_attr(&mut attributes, count_attribute("lines-covered", stats.lines_covered));
    push_attr(&mut attributes, count_attribute("lines-valid", stats.lines_valid));
    push_attr(&mut attributes, rate_attribute("line-rate", stats.line_rate()));
    push_attr(&mut attributes, count_attribute("branches-covered", stats.branches_covered));
    push_attr(&mut attributes, count_attribute("branches-valid", stats.branches_valid));
    push_attr(&mut attributes, rate_attribute("branch-rate", stats.branch_rate()));
    push_attr(&mut attributes, text_attribute("complexity", "0".to_owned()));
    push_attr(&mut attributes, text_attribute("version", "1.9".to_owned()));
    push_attr(&mut attributes, count_attribute("timestamp", timestamp));
    assert(attribute_views(attributes@) =~= root_attrs(*stats, timestamp));
    attributes
}

/// Lays the report out as the events of a Cobertura document, stamped with
/// the given time in seconds.
///
/// Counts and names are written out. Rates are left as rates: what their
/// text is, is for the caller to say before the events are rendered.
pub fn document(coverage: &Coverage, timestamp: u64) -> (layout: Result<
    Vec<XmlEvent>,
    ExportError,
>)
    ensures
        events_view(layout) == document_outcome(coverage@, timestamp),
{
    let ghost views = package_views(coverage.packages@);
    let stats = match coverage.get_stats() {
        Some(stats) => stats,
        None => {
            return Err(ExportError::Uncountable);
        },
    };
    if !packages_fit(&coverage.packages) {
        return Err(ExportError::Uncountable);
    }
    let mut events: Vec<XmlEvent> = Vec::new();
    assert(event_views(events@) =~= Seq::<XmlEventView>::empty());
    push_event(&mut events, XmlEvent::Decl { version: "1.0".to_owned() });
    push_event(
        &mut events,
        XmlEvent::DocType {
            text: " coverage SYSTEM 'http://cobertura.sourceforge.net/xml/coverage-04.dtd'".to_owned(),
        },
    );
    push_start(&mut events, "coverage", root_attributes(&stats, timestamp));
    write_sources(&mut events, &coverage.sources);
    push_open(&mut events, "packages");
    let ghost opened = event_views(events@);
    let mut i: usize = 0;
    while i < coverage.packages.len()
        invariant
            i <= coverage.packages.len(),
            views == package_views(coverage.packages@),
            coverage@.fits(),
            event_views(events@) == opened + each_package_events(views.take(i as int)),
        decreases coverage.packages.len() - i,
    {
        proof {
            assert(views.take(i + 1).drop_last() =~= views.take(i as int));
            assert(views.take(i + 1).last() == coverage.packages@[i as int]@);
            assert(views[i as int].fits());
        }
        match write_package(&mut events, &coverage.packages[i]) {
            Ok(()) => {},
            Err(e) => {
                return Err(e);
            },
        }
        i = i + 1;
        assert(event_views(events@) =~= opened + each_package_events(views.take(i as int)));
    }
    assert(views.take(i as int) =~= views);
    push_close(&mut events, "packages");
    push_close(&mut events, "coverage");
    assert(event_views(events@) =~= document_events(coverage@, timestamp));
    Ok(events)
}

} // verus!
